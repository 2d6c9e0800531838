//! The GIB format, stated as functions from a text to what it holds.
//!
//! A GIB text is a row of items with white space between them. An item is a
//! tag, a record or a word.
//!
//! A tag stands between `\[` and `\]` and holds no backslash. Tags that begin
//! with one of these keys are read; every other tag is passed over.
//!
//! | key | what follows | what it gives |
//! |---|---|---|
//! | `GAMEBLACKNAME=`, `GAMEWHITENAME=` | `nick` or `nick (rank)` | nickname and rank |
//! | `GAMEPLACE=` | text | the place of the game |
//! | `GAMEDATE=` | `year-month-day`, more may follow | the date |
//! | `GAMEINFOMAIN=`, `GAMETAG=` | details with commas between them | see below |
//!
//! A detail that begins with one of these keys is read; every other detail is
//! passed over. The short keys count only where a digit follows them.
//!
//! | key | what follows | what it gives |
//! |---|---|---|
//! | `GRLT:`, `W` | a number | the code of the result |
//! | `ZIPSU:`, `Z` | a number of tenths | the margin of the result |
//! | `GONGJE:`, `G` | a number of tenths | the komi |
//! | `C` | `year:month:day`, more may follow | the date |
//!
//! A record begins with a word of three letters and a space; numbers follow,
//! with white space before each.
//!
//! | word | numbers | what it gives |
//! |---|---|---|
//! | `STO` | two that are not used, the player (1 black, 2 white), x, y | a stone |
//! | `INI` | two that are not used, the number of handicap stones | the handicap |
//! | `SKI` | none is read | a pass of the player whose turn it is |
//!
//! A word is a row of characters that are neither white space nor a
//! backslash, or one backslash that opens no tag. Words are passed over.
//!
//! Where a key is read twice, the later one counts. A tag that is not
//! closed, a number that is missing or too large, a date that the calendar
//! does not have, a player other than 1 and 2, and a point off the board
//! make the whole text unreadable.

use vstd::prelude::*;
use crate::go::{BoardCoordinate, GameResult, GoMove, PlayerColor, Score, BOARD_SIZE};
use crate::lexer::{
    after_run,
    digit,
    expected_message,
    leading_run,
    lemma_run_length_properties,
    number_at,
};
use crate::text::is_digit;
use crate::time::{invalid_date_message, valid_date};

verus! {

/// What a game record holds.
pub struct GibView {
    pub black_nick: Option<Seq<char>>,
    pub black_rank: Option<Seq<char>>,
    pub white_nick: Option<Seq<char>>,
    pub white_rank: Option<Seq<char>>,
    pub komi: Option<Score>,
    /// Year, month and day.
    pub date: Option<(int, int, int)>,
    /// The code of the result, as the record gives it.
    pub result_code: Option<int>,
    /// The margin by which the game was won, where it was counted.
    pub margin: Option<Score>,
    pub game_place: Option<Seq<char>>,
    /// The number of handicap stones, which is at least two.
    pub handicap: Option<int>,
    pub moves: Seq<GoMove>,
}

/// The player of a move.
pub open spec fn mover(played: GoMove) -> PlayerColor {
    match played {
        GoMove::PlaceStone { player, .. } => player,
        GoMove::Pass { player } => player,
    }
}

/// Whether a move is a pass or puts its stone on the board.
pub open spec fn playable(played: GoMove) -> bool {
    match played {
        GoMove::PlaceStone { coordinate, .. } => coordinate.on_board(),
        GoMove::Pass { .. } => true,
    }
}

/// The result that a code and a margin stand for: 0 and 1 are wins by
/// points of black and of white, 3 and 4 wins by resignation, 7 and 8 wins on
/// time. Other codes stand for no result.
pub open spec fn game_result(code: Option<int>, margin: Option<Score>) -> Option<GameResult> {
    match code {
        Some(code) => if code == 0 {
            Some(GameResult::Count(PlayerColor::Black, margin))
        } else if code == 1 {
            Some(GameResult::Count(PlayerColor::White, margin))
        } else if code == 3 {
            Some(GameResult::Resign(PlayerColor::Black))
        } else if code == 4 {
            Some(GameResult::Resign(PlayerColor::White))
        } else if code == 7 {
            Some(GameResult::Time(PlayerColor::Black))
        } else if code == 8 {
            Some(GameResult::Time(PlayerColor::White))
        } else {
            None
        },
        None => None,
    }
}

impl GibView {
    /// The record that holds nothing.
    pub open spec fn empty() -> GibView {
        GibView {
            black_nick: None,
            black_rank: None,
            white_nick: None,
            white_rank: None,
            komi: None,
            date: None,
            result_code: None,
            margin: None,
            game_place: None,
            handicap: None,
            moves: Seq::empty(),
        }
    }

    pub open spec fn nick(self, color: PlayerColor) -> Option<Seq<char>> {
        match color {
            PlayerColor::Black => self.black_nick,
            PlayerColor::White => self.white_nick,
        }
    }

    pub open spec fn rank(self, color: PlayerColor) -> Option<Seq<char>> {
        match color {
            PlayerColor::Black => self.black_rank,
            PlayerColor::White => self.white_rank,
        }
    }

    /// The result of the game, if the record gives one.
    pub open spec fn result(self) -> Option<GameResult> {
        game_result(self.result_code, self.margin)
    }

    /// The player whose turn it is: the other one than moved last; at the
    /// start black, or white in a handicap game.
    pub open spec fn to_move(self) -> PlayerColor {
        if self.moves.len() > 0 {
            mover(self.moves.last()).opponent()
        } else if self.handicap is Some {
            PlayerColor::White
        } else {
            PlayerColor::Black
        }
    }

    /// The record with one more move.
    pub open spec fn with_move(self, played: GoMove) -> GibView {
        GibView { moves: self.moves.push(played), ..self }
    }

    /// The record with what the name tag of `color` holds behind its key:
    /// the nickname is what stands before the first round bracket, without
    /// the white space around it; the rank is what stands between that
    /// bracket and the next closing one. An empty one of them is absent.
    pub open spec fn with_player(self, color: PlayerColor, value: Seq<char>) -> GibView {
        let nick = filled(trim(leading_run(value, other_than('('))));
        let bracket = after_run(value, other_than('('));
        let rank = if bracket.len() > 0 {
            filled(leading_run(bracket.skip(1), other_than(')')))
        } else {
            None
        };
        match color {
            PlayerColor::Black => GibView { black_nick: nick, black_rank: rank, ..self },
            PlayerColor::White => GibView { white_nick: nick, white_rank: rank, ..self },
        }
    }

    /// Whether every stone lies on the board, a handicap has at least two
    /// stones, and a date is a day of the calendar.
    pub open spec fn wf(self) -> bool {
        &&& forall|i: int| 0 <= i < self.moves.len() ==> playable(#[trigger] self.moves[i])
        &&& self.handicap matches Some(stones) ==> 2 <= stones <= u8::MAX
        &&& self.date matches Some(date) ==> {
            &&& 0 <= date.0 <= u16::MAX
            &&& valid_date(date.0, date.1, date.2)
        }
    }
}

/// Whether `c` is white space: a space, a tab, or the end of a line.
pub open spec fn is_space(c: char) -> bool {
    c == ' ' || c == '\t' || c == '\r' || c == '\n'
}

/// The test for white space.
pub open spec fn space() -> spec_fn(char) -> bool {
    |c: char| is_space(c)
}

/// The test for a character of a word.
pub open spec fn plain() -> spec_fn(char) -> bool {
    |c: char| !is_space(c) && c != '\\'
}

/// The test for every character but `stop`.
pub open spec fn other_than(stop: char) -> spec_fn(char) -> bool {
    |c: char| c != stop
}

/// `text` without the white space at its end.
pub open spec fn trim_end(text: Seq<char>) -> Seq<char>
    decreases text.len(),
{
    if text.len() > 0 && is_space(text.last()) {
        trim_end(text.drop_last())
    } else {
        text
    }
}

/// `text` without the white space at its start and at its end.
pub open spec fn trim(text: Seq<char>) -> Seq<char> {
    trim_end(after_run(text, space()))
}

/// `text`, unless it is empty.
pub open spec fn filled(text: Seq<char>) -> Option<Seq<char>> {
    if text.len() > 0 {
        Some(text)
    } else {
        None
    }
}

/// The mark that opens a tag.
pub open spec fn tag_open() -> Seq<char> {
    seq!['\\', '[']
}

/// The mark that closes a tag.
pub open spec fn tag_close() -> Seq<char> {
    seq!['\\', ']']
}

/// The word that begins the record of a stone.
pub open spec fn stone_word() -> Seq<char> {
    seq!['S', 'T', 'O', ' ']
}

/// The word that begins the record of the setup.
pub open spec fn setup_word() -> Seq<char> {
    seq!['I', 'N', 'I', ' ']
}

/// The word that begins the record of a pass.
pub open spec fn pass_word() -> Seq<char> {
    seq!['S', 'K', 'I', ' ']
}

/// The message for a player that is neither 1 nor 2.
pub open spec fn unknown_player_message() -> Seq<char> {
    "unknown player in a move"@
}

/// The message for a point that is not on the board.
pub open spec fn off_board_message() -> Seq<char> {
    "move off the board"@
}

/// The number of a record's field and what follows it: white space, then
/// the number.
pub open spec fn field_at(text: Seq<char>, limit: nat) -> Result<(nat, Seq<char>), Seq<char>> {
    number_at(after_run(text, space()), limit)
}

/// The stone of a record whose word has been read, and what follows the
/// record.
pub open spec fn stone_at(text: Seq<char>) -> Result<(GoMove, Seq<char>), Seq<char>> {
    match field_at(text, u32::MAX as nat) {
        Err(message) => Err(message),
        Ok((_, text)) => match field_at(text, u32::MAX as nat) {
            Err(message) => Err(message),
            Ok((_, text)) => match field_at(text, u8::MAX as nat) {
                Err(message) => Err(message),
                Ok((player, text)) => match field_at(text, u8::MAX as nat) {
                    Err(message) => Err(message),
                    Ok((x, text)) => match field_at(text, u8::MAX as nat) {
                        Err(message) => Err(message),
                        Ok((y, text)) => if player != 1 && player != 2 {
                            Err(unknown_player_message())
                        } else if x >= BOARD_SIZE || y >= BOARD_SIZE {
                            Err(off_board_message())
                        } else {
                            Ok(
                                (
                                    GoMove::PlaceStone {
                                        player: if player == 1 {
                                            PlayerColor::Black
                                        } else {
                                            PlayerColor::White
                                        },
                                        coordinate: BoardCoordinate { x: x as u8, y: y as u8 },
                                    },
                                    text,
                                ),
                            )
                        },
                    },
                },
            },
        },
    }
}

/// The handicap of a setup record whose word has been read, and what
/// follows the record. Fewer than two stones are no handicap.
pub open spec fn setup_at(text: Seq<char>) -> Result<(Option<int>, Seq<char>), Seq<char>> {
    match field_at(text, u32::MAX as nat) {
        Err(message) => Err(message),
        Ok((_, text)) => match field_at(text, u32::MAX as nat) {
            Err(message) => Err(message),
            Ok((_, text)) => match field_at(text, u8::MAX as nat) {
                Err(message) => Err(message),
                Ok((stones, text)) => Ok(
                    (
                        if stones >= 2 {
                            Some(stones as int)
                        } else {
                            None
                        },
                        text,
                    ),
                ),
            },
        },
    }
}

/// The date that `text` writes as year, month and day with `separator`
/// between them and white space, if any, before each. A text of white space
/// alone writes no date.
pub open spec fn date_at(text: Seq<char>, separator: Seq<char>) -> Result<
    Option<(int, int, int)>,
    Seq<char>,
> {
    let text = after_run(text, space());
    if text.len() == 0 {
        Ok(None)
    } else {
        match number_at(text, u16::MAX as nat) {
            Err(message) => Err(message),
            Ok((year, text)) => if !separator.is_prefix_of(text) {
                Err(expected_message(separator))
            } else {
                match field_at(text.skip(separator.len() as int), u8::MAX as nat) {
                    Err(message) => Err(message),
                    Ok((month, text)) => if !separator.is_prefix_of(text) {
                        Err(expected_message(separator))
                    } else {
                        match field_at(text.skip(separator.len() as int), u8::MAX as nat) {
                            Err(message) => Err(message),
                            Ok((day, _)) => if valid_date(year as int, month as int, day as int) {
                                Ok(Some((year as int, month as int, day as int)))
                            } else {
                                Err(invalid_date_message(year as int, month as int, day as int))
                            },
                        }
                    },
                }
            },
        }
    }
}

/// Whether `detail` begins with `key` and a digit.
pub open spec fn counts(detail: Seq<char>, key: Seq<char>) -> bool {
    key.is_prefix_of(detail) && detail.len() > key.len() && is_digit(detail[key.len() as int])
}

/// The record with what one detail gives.
pub open spec fn with_detail(record: GibView, detail: Seq<char>) -> Result<GibView, Seq<char>> {
    if "GRLT:"@.is_prefix_of(detail) {
        with_result_code(record, detail.skip("GRLT:"@.len() as int))
    } else if "ZIPSU:"@.is_prefix_of(detail) {
        with_margin(record, detail.skip("ZIPSU:"@.len() as int))
    } else if "GONGJE:"@.is_prefix_of(detail) {
        with_komi(record, detail.skip("GONGJE:"@.len() as int))
    } else if counts(detail, "W"@) {
        with_result_code(record, detail.skip("W"@.len() as int))
    } else if counts(detail, "Z"@) {
        with_margin(record, detail.skip("Z"@.len() as int))
    } else if counts(detail, "G"@) {
        with_komi(record, detail.skip("G"@.len() as int))
    } else if counts(detail, "C"@) {
        with_date(record, detail.skip("C"@.len() as int), ":"@)
    } else {
        Ok(record)
    }
}

/// The record with the result code that `text` begins with.
pub open spec fn with_result_code(record: GibView, text: Seq<char>) -> Result<GibView, Seq<char>> {
    match number_at(text, u8::MAX as nat) {
        Err(message) => Err(message),
        Ok((code, _)) => Ok(GibView { result_code: Some(code as int), ..record }),
    }
}

/// The record with the margin that `text` begins with.
pub open spec fn with_margin(record: GibView, text: Seq<char>) -> Result<GibView, Seq<char>> {
    match number_at(text, i16::MAX as nat) {
        Err(message) => Err(message),
        Ok((tenths, _)) => Ok(GibView { margin: Some(Score { value: tenths as i16 }), ..record }),
    }
}

/// The record with the komi that `text` begins with.
pub open spec fn with_komi(record: GibView, text: Seq<char>) -> Result<GibView, Seq<char>> {
    match number_at(text, i16::MAX as nat) {
        Err(message) => Err(message),
        Ok((tenths, _)) => Ok(GibView { komi: Some(Score { value: tenths as i16 }), ..record }),
    }
}

/// The record with the date that `text` writes.
pub open spec fn with_date(record: GibView, text: Seq<char>, separator: Seq<char>) -> Result<
    GibView,
    Seq<char>,
> {
    match date_at(text, separator) {
        Err(message) => Err(message),
        Ok(date) => Ok(GibView { date, ..record }),
    }
}

/// The record with what the details of `text` give, one after another.
pub open spec fn with_details(record: GibView, text: Seq<char>) -> Result<GibView, Seq<char>>
    decreases text.len(),
    via with_details_decreases
{
    let detail = leading_run(text, other_than(','));
    let rest = after_run(text, other_than(','));
    match with_detail(record, detail) {
        Err(message) => Err(message),
        Ok(record) => if rest.len() == 0 {
            Ok(record)
        } else {
            with_details(record, rest.skip(1))
        },
    }
}

#[via_fn]
proof fn with_details_decreases(record: GibView, text: Seq<char>) {
    lemma_run_length_properties(text, other_than(','));
}

/// The record with what a tag gives; `body` is what stands between the
/// marks of the tag.
pub open spec fn with_tag(record: GibView, body: Seq<char>) -> Result<GibView, Seq<char>> {
    if "GAMEBLACKNAME="@.is_prefix_of(body) {
        Ok(record.with_player(PlayerColor::Black, body.skip("GAMEBLACKNAME="@.len() as int)))
    } else if "GAMEWHITENAME="@.is_prefix_of(body) {
        Ok(record.with_player(PlayerColor::White, body.skip("GAMEWHITENAME="@.len() as int)))
    } else if "GAMEPLACE="@.is_prefix_of(body) {
        Ok(
            GibView {
                game_place: filled(trim(body.skip("GAMEPLACE="@.len() as int))),
                ..record
            },
        )
    } else if "GAMEDATE="@.is_prefix_of(body) {
        with_date(record, body.skip("GAMEDATE="@.len() as int), "-"@)
    } else if "GAMEINFOMAIN="@.is_prefix_of(body) {
        with_details(record, body.skip("GAMEINFOMAIN="@.len() as int))
    } else if "GAMETAG="@.is_prefix_of(body) {
        with_details(record, body.skip("GAMETAG="@.len() as int))
    } else {
        Ok(record)
    }
}

/// What reading one item comes to.
pub enum Step {
    /// Nothing but white space was left.
    End,
    /// An item was read: what follows it, and the record with what it gives.
    More { rest: Seq<char>, record: GibView },
    /// The text is unreadable.
    Failed { message: Seq<char> },
}

/// Reads the first item of `text` into `record`.
pub open spec fn next_item(record: GibView, text: Seq<char>) -> Step {
    let text = after_run(text, space());
    if text.len() == 0 {
        Step::End
    } else if tag_open().is_prefix_of(text) {
        let inner = text.skip(tag_open().len() as int);
        let body = leading_run(inner, other_than('\\'));
        let rest = after_run(inner, other_than('\\'));
        if !tag_close().is_prefix_of(rest) {
            Step::Failed { message: expected_message(tag_close()) }
        } else {
            match with_tag(record, body) {
                Err(message) => Step::Failed { message },
                Ok(record) => Step::More { rest: rest.skip(tag_close().len() as int), record },
            }
        }
    } else if stone_word().is_prefix_of(text) {
        match stone_at(text.skip(stone_word().len() as int)) {
            Err(message) => Step::Failed { message },
            Ok((stone, rest)) => Step::More { rest, record: record.with_move(stone) },
        }
    } else if setup_word().is_prefix_of(text) {
        match setup_at(text.skip(setup_word().len() as int)) {
            Err(message) => Step::Failed { message },
            Ok((handicap, rest)) => Step::More { rest, record: GibView { handicap, ..record } },
        }
    } else if pass_word().is_prefix_of(text) {
        Step::More {
            rest: text.skip(pass_word().len() as int),
            record: record.with_move(GoMove::Pass { player: record.to_move() }),
        }
    } else if plain()(text[0]) {
        Step::More { rest: after_run(text, plain()), record }
    } else {
        Step::More { rest: text.skip(1), record }
    }
}

/// What follows a number is shorter than the text that begins with it.
proof fn lemma_number_at_rest(text: Seq<char>, limit: nat)
    ensures
        number_at(text, limit) matches Ok((_, rest)) ==> rest.len() < text.len(),
{
    lemma_run_length_properties(text, digit());
}

/// What follows a field is shorter than the text that begins with it.
proof fn lemma_field_at_rest(text: Seq<char>, limit: nat)
    ensures
        field_at(text, limit) matches Ok((_, rest)) ==> rest.len() < text.len(),
{
    lemma_run_length_properties(text, space());
    lemma_number_at_rest(after_run(text, space()), limit);
}

/// What follows the record of a stone is shorter than the record's text.
proof fn lemma_stone_at_rest(text: Seq<char>)
    ensures
        stone_at(text) matches Ok((_, rest)) ==> rest.len() < text.len(),
{
    lemma_field_at_rest(text, u32::MAX as nat);
    if let Ok((_, text)) = field_at(text, u32::MAX as nat) {
        lemma_field_at_rest(text, u32::MAX as nat);
        if let Ok((_, text)) = field_at(text, u32::MAX as nat) {
            lemma_field_at_rest(text, u8::MAX as nat);
            if let Ok((_, text)) = field_at(text, u8::MAX as nat) {
                lemma_field_at_rest(text, u8::MAX as nat);
                if let Ok((_, text)) = field_at(text, u8::MAX as nat) {
                    lemma_field_at_rest(text, u8::MAX as nat);
                }
            }
        }
    }
}

/// What follows the record of the setup is shorter than the record's text.
proof fn lemma_setup_at_rest(text: Seq<char>)
    ensures
        setup_at(text) matches Ok((_, rest)) ==> rest.len() < text.len(),
{
    lemma_field_at_rest(text, u32::MAX as nat);
    if let Ok((_, text)) = field_at(text, u32::MAX as nat) {
        lemma_field_at_rest(text, u32::MAX as nat);
        if let Ok((_, text)) = field_at(text, u32::MAX as nat) {
            lemma_field_at_rest(text, u8::MAX as nat);
        }
    }
}

/// Every item that is read takes at least one character.
pub proof fn lemma_next_item_progress(record: GibView, text: Seq<char>)
    ensures
        next_item(record, text) matches Step::More { rest, .. } ==> rest.len() < text.len(),
{
    lemma_run_length_properties(text, space());
    let text = after_run(text, space());
    if text.len() > 0 {
        if tag_open().is_prefix_of(text) {
            lemma_run_length_properties(text.skip(2), other_than('\\'));
        } else if stone_word().is_prefix_of(text) {
            lemma_stone_at_rest(text.skip(4));
        } else if setup_word().is_prefix_of(text) {
            lemma_setup_at_rest(text.skip(4));
        } else if pass_word().is_prefix_of(text) {
        } else if plain()(text[0]) {
            lemma_run_length_properties(text, plain());
        }
    }
}

#[via_fn]
proof fn read_items_decreases(record: GibView, text: Seq<char>) {
    lemma_next_item_progress(record, text);
}

/// Reads the items of `text` into `record`, one after another.
pub open spec fn read_items(record: GibView, text: Seq<char>) -> Result<GibView, Seq<char>>
    decreases text.len(),
    via read_items_decreases
{
    match next_item(record, text) {
        Step::End => Ok(record),
        Step::Failed { message } => Err(message),
        Step::More { rest, record } => read_items(record, rest),
    }
}

/// The record that a GIB text holds, or the message that says why the text
/// is unreadable.
pub open spec fn parse_text(text: Seq<char>) -> Result<GibView, Seq<char>> {
    read_items(GibView::empty(), text)
}

} // verus!
