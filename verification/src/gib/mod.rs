//! Game records in the GIB format.

pub mod format;
pub mod reader;

use vstd::prelude::*;
use vstd::string::*;
use crate::gib::format::{
    lemma_next_item_progress,
    next_item,
    other_than,
    parse_text,
    plain,
    read_items,
    space,
    with_date,
    with_detail,
    with_details,
    with_komi,
    with_margin,
    with_result_code,
    with_tag,
    GibView,
    Step,
};
use crate::gib::reader::{
    backslash_mark,
    is_not_backslash,
    is_not_closing,
    is_not_comma,
    is_not_opening,
    is_plain_char,
    is_space_char,
    optional_before_digit,
    pass_keyword,
    read_date,
    read_setup,
    read_stone,
    setup_keyword,
    stone_keyword,
    tag_close_mark,
    tag_open_mark,
    trimmed,
    GibParseError,
};
use crate::go::{GameResult, GoMove, Handicap, PlayerColor, Score};
use crate::lexer::{lemma_run_length_properties, read_run, Lexer};
use crate::time::LocalDate;

verus! {

/// A game record, as a GIB text gives it. Every part of it may be absent.
#[derive(Debug)]
pub struct Gib {
    black_nick: Option<String>,
    black_rank: Option<String>,
    white_nick: Option<String>,
    white_rank: Option<String>,
    komi: Option<Score>,
    date: Option<LocalDate>,
    result_code: Option<u8>,
    margin: Option<Score>,
    game_place: Option<String>,
    handicap: Option<Handicap>,
    moves: Vec<GoMove>,
}

/// The text of a string that may be absent.
pub open spec fn text_of(string: Option<String>) -> Option<Seq<char>> {
    match string {
        Some(s) => Some(s@),
        None => None,
    }
}

/// `text` as a string of its own, unless it is empty.
fn filled_string(text: &str) -> (string: Option<String>)
    ensures
        text_of(string) == crate::gib::format::filled(text@),
{
    if text.is_empty() {
        None
    } else {
        Some(String::from_str(text))
    }
}

fn as_text<'a>(string: &'a Option<String>) -> (text: Option<&'a str>)
    ensures
        match text {
            Some(t) => text_of(*string) == Some(t@),
            None => *string is None,
        },
{
    match string {
        Some(s) => Some(s.as_str()),
        None => None,
    }
}

impl View for Gib {
    type V = GibView;

    closed spec fn view(&self) -> GibView {
        GibView {
            black_nick: text_of(self.black_nick),
            black_rank: text_of(self.black_rank),
            white_nick: text_of(self.white_nick),
            white_rank: text_of(self.white_rank),
            komi: self.komi,
            date: match self.date {
                Some(date) => Some((date.spec_year(), date.spec_month(), date.spec_day())),
                None => None,
            },
            result_code: match self.result_code {
                Some(code) => Some(code as int),
                None => None,
            },
            margin: self.margin,
            game_place: text_of(self.game_place),
            handicap: match self.handicap {
                Some(handicap) => Some(handicap.spec_stones()),
                None => None,
            },
            moves: self.moves@,
        }
    }
}

impl Gib {
    /// The record that holds nothing.
    fn new() -> (gib: Gib)
        ensures
            gib@ == GibView::empty(),
    {
        Gib {
            black_nick: None,
            black_rank: None,
            white_nick: None,
            white_rank: None,
            komi: None,
            date: None,
            result_code: None,
            margin: None,
            game_place: None,
            handicap: None,
            moves: Vec::new(),
        }
    }

    /// The record that `text` holds. Fails, with a message, where `text` is
    /// unreadable.
    pub fn parse(text: &str) -> (result: Result<Gib, GibParseError>)
        ensures
            match result {
                Ok(gib) => parse_text(text@) matches Ok(record) && record == gib@ && gib@.wf(),
                Err(error) => parse_text(text@) matches Err(message) && message == error@,
            },
    {
        let mut gib = Gib::new();
        let mut lexer = Lexer::new(text);
        loop
            invariant
                read_items(gib@, lexer.remaining()) == parse_text(text@),
                gib@.wf(),
            decreases lexer.remaining().len(),
        {
            proof {
                lemma_next_item_progress(gib@, lexer.remaining());
            }
            match gib.read_item(&mut lexer) {
                Ok(true) => {},
                Ok(false) => {
                    return Ok(gib);
                },
                Err(error) => {
                    return Err(error);
                },
            }
        }
    }

    /// Reads one item into the record, and tells whether there was one.
    fn read_item(&mut self, lexer: &mut Lexer) -> (result: Result<bool, GibParseError>)
        requires
            old(self)@.wf(),
        ensures
            match result {
                Ok(true) => next_item(old(self)@, old(lexer).remaining()) == (Step::More {
                    rest: final(lexer).remaining(),
                    record: final(self)@,
                }) && final(self)@.wf(),
                Ok(false) => next_item(old(self)@, old(lexer).remaining()) == Step::End
                    && final(self)@ == old(self)@,
                Err(error) => next_item(old(self)@, old(lexer).remaining()) == (Step::Failed {
                    message: error@,
                }),
            },
    {
        read_run(lexer, is_space_char, Ghost(space()));
        proof {
            lemma_run_length_properties(old(lexer).remaining(), space());
        }
        if lexer.at_end() {
            Ok(false)
        } else if lexer.optional(tag_open_mark()) {
            let body = read_run(lexer, is_not_backslash, Ghost(other_than('\\')));
            match lexer.expect(tag_close_mark()) {
                Ok(()) => {},
                Err(message) => {
                    return Err(GibParseError::new(message));
                },
            }
            match self.set_tag(body) {
                Ok(()) => Ok(true),
                Err(error) => Err(error),
            }
        } else if lexer.optional(stone_keyword()) {
            match read_stone(lexer) {
                Ok(stone) => {
                    self.moves.push(stone);
                    Ok(true)
                },
                Err(error) => Err(error),
            }
        } else if lexer.optional(setup_keyword()) {
            match read_setup(lexer) {
                Ok(handicap) => {
                    self.handicap = handicap;
                    Ok(true)
                },
                Err(error) => Err(error),
            }
        } else if lexer.optional(pass_keyword()) {
            let player = self.to_move();
            self.moves.push(GoMove::Pass { player });
            Ok(true)
        } else {
            let ghost text = lexer.remaining();
            let word = read_run(lexer, is_plain_char, Ghost(plain()));
            if word.is_empty() {
                proof {
                    lemma_run_length_properties(text, plain());
                    assert(crate::lexer::run_length(text, plain()) == 0);
                    assert(!plain()(text[0]));
                    assert(!space()(text[0]));
                    assert(text.subrange(0, 1) =~= seq!['\\']);
                    assert(text.skip(0) =~= text);
                }
                let skipped = lexer.optional(backslash_mark());
                assert(skipped);
            } else {
                proof {
                    lemma_run_length_properties(text, plain());
                    assert(word@.len() > 0);
                    assert(crate::lexer::run_length(text, plain()) > 0);
                    assert(plain()(text[0]));
                }
            }
            Ok(true)
        }
    }

    /// The player whose turn it is.
    fn to_move(&self) -> (player: PlayerColor)
        ensures
            player == self@.to_move(),
    {
        let played = self.moves.len();
        if played > 0 {
            match &self.moves[played - 1] {
                GoMove::PlaceStone { player, .. } => player.pick(
                    PlayerColor::White,
                    PlayerColor::Black,
                ),
                GoMove::Pass { player } => player.pick(PlayerColor::White, PlayerColor::Black),
            }
        } else if self.handicap.is_some() {
            PlayerColor::White
        } else {
            PlayerColor::Black
        }
    }

    /// Takes into the record what a tag gives; `body` is what stands between
    /// the marks of the tag.
    fn set_tag(&mut self, body: &str) -> (result: Result<(), GibParseError>)
        requires
            old(self)@.wf(),
        ensures
            match result {
                Ok(_) => with_tag(old(self)@, body@) matches Ok(record) && record == final(self)@
                    && final(self)@.wf(),
                Err(error) => with_tag(old(self)@, body@) matches Err(message) && message
                    == error@,
            },
    {
        let mut lexer = Lexer::new(body);
        if lexer.optional("GAMEBLACKNAME=") {
            self.set_player(PlayerColor::Black, lexer.rest());
            Ok(())
        } else if lexer.optional("GAMEWHITENAME=") {
            self.set_player(PlayerColor::White, lexer.rest());
            Ok(())
        } else if lexer.optional("GAMEPLACE=") {
            self.game_place = filled_string(trimmed(lexer.rest()));
            Ok(())
        } else if lexer.optional("GAMEDATE=") {
            self.set_date(lexer.rest(), "-")
        } else if lexer.optional("GAMEINFOMAIN=") {
            self.set_details(lexer.rest())
        } else if lexer.optional("GAMETAG=") {
            self.set_details(lexer.rest())
        } else {
            Ok(())
        }
    }

    /// Takes into the record what the name tag of `color` holds behind its
    /// key.
    fn set_player(&mut self, color: PlayerColor, value: &str)
        ensures
            final(self)@ == old(self)@.with_player(color, value@),
    {
        let mut lexer = Lexer::new(value);
        let nick = filled_string(trimmed(read_run(&mut lexer, is_not_opening, Ghost(other_than('(')))));
        let rank = if lexer.at_end() {
            None
        } else {
            let opened = lexer.optional("(");
            proof {
                reveal_strlit("(");
                lemma_run_length_properties(value@, other_than('('));
                assert("("@ =~= seq!['(']);
                assert(opened);
            }
            filled_string(read_run(&mut lexer, is_not_closing, Ghost(other_than(')'))))
        };
        match color {
            PlayerColor::Black => {
                self.black_nick = nick;
                self.black_rank = rank;
            },
            PlayerColor::White => {
                self.white_nick = nick;
                self.white_rank = rank;
            },
        }
    }

    /// Takes into the record the date that `text` writes.
    fn set_date(&mut self, text: &str, separator: &str) -> (result: Result<(), GibParseError>)
        requires
            old(self)@.wf(),
        ensures
            match result {
                Ok(_) => with_date(old(self)@, text@, separator@) matches Ok(record) && record
                    == final(self)@ && final(self)@.wf(),
                Err(error) => with_date(old(self)@, text@, separator@) matches Err(message)
                    && message == error@,
            },
    {
        match read_date(text, separator) {
            Ok(date) => {
                match &date {
                    Some(date) => {
                        let _year = date.year();
                        let _day = date.day();
                    },
                    None => {},
                }
                self.date = date;
                Ok(())
            },
            Err(error) => Err(error),
        }
    }

    /// Takes into the record what the details of `text` give.
    fn set_details(&mut self, text: &str) -> (result: Result<(), GibParseError>)
        requires
            old(self)@.wf(),
        ensures
            match result {
                Ok(_) => with_details(old(self)@, text@) matches Ok(record) && record
                    == final(self)@ && final(self)@.wf(),
                Err(error) => with_details(old(self)@, text@) matches Err(message) && message
                    == error@,
            },
    {
        let mut lexer = Lexer::new(text);
        loop
            invariant
                with_details(self@, lexer.remaining()) == with_details(old(self)@, text@),
                self@.wf(),
            decreases lexer.remaining().len(),
        {
            proof {
                lemma_run_length_properties(lexer.remaining(), other_than(','));
            }
            let detail = read_run(&mut lexer, is_not_comma, Ghost(other_than(',')));
            match self.set_detail(detail) {
                Ok(()) => {},
                Err(error) => {
                    return Err(error);
                },
            }
            if lexer.at_end() {
                return Ok(());
            }
            let skipped = lexer.optional(",");
            proof {
                reveal_strlit(",");
                assert(","@ =~= seq![',']);
                assert(skipped);
            }
        }
    }

    /// Takes into the record what one detail gives.
    fn set_detail(&mut self, detail: &str) -> (result: Result<(), GibParseError>)
        requires
            old(self)@.wf(),
        ensures
            match result {
                Ok(_) => with_detail(old(self)@, detail@) matches Ok(record) && record
                    == final(self)@ && final(self)@.wf(),
                Err(error) => with_detail(old(self)@, detail@) matches Err(message) && message
                    == error@,
            },
    {
        let mut lexer = Lexer::new(detail);
        if lexer.optional("GRLT:") {
            self.set_result_code(&mut lexer)
        } else if lexer.optional("ZIPSU:") {
            self.set_margin(&mut lexer)
        } else if lexer.optional("GONGJE:") {
            self.set_komi(&mut lexer)
        } else if optional_before_digit(&mut lexer, "W") {
            self.set_result_code(&mut lexer)
        } else if optional_before_digit(&mut lexer, "Z") {
            self.set_margin(&mut lexer)
        } else if optional_before_digit(&mut lexer, "G") {
            self.set_komi(&mut lexer)
        } else if optional_before_digit(&mut lexer, "C") {
            self.set_date(lexer.rest(), ":")
        } else {
            Ok(())
        }
    }

    fn set_result_code(&mut self, lexer: &mut Lexer) -> (result: Result<(), GibParseError>)
        ensures
            match result {
                Ok(_) => with_result_code(old(self)@, old(lexer).remaining()) matches Ok(record)
                    && record == final(self)@,
                Err(error) => with_result_code(old(self)@, old(lexer).remaining()) matches Err(
                    message,
                ) && message == error@,
            },
    {
        match lexer.read_number::<u8>() {
            Ok(code) => {
                self.result_code = Some(code);
                Ok(())
            },
            Err(message) => Err(GibParseError::new(message)),
        }
    }

    fn set_margin(&mut self, lexer: &mut Lexer) -> (result: Result<(), GibParseError>)
        ensures
            match result {
                Ok(_) => with_margin(old(self)@, old(lexer).remaining()) matches Ok(record)
                    && record == final(self)@,
                Err(error) => with_margin(old(self)@, old(lexer).remaining()) matches Err(message)
                    && message == error@,
            },
    {
        match lexer.read_number::<i16>() {
            Ok(tenths) => {
                self.margin = Some(Score::from_tenths(tenths));
                Ok(())
            },
            Err(message) => Err(GibParseError::new(message)),
        }
    }

    fn set_komi(&mut self, lexer: &mut Lexer) -> (result: Result<(), GibParseError>)
        ensures
            match result {
                Ok(_) => with_komi(old(self)@, old(lexer).remaining()) matches Ok(record)
                    && record == final(self)@,
                Err(error) => with_komi(old(self)@, old(lexer).remaining()) matches Err(message)
                    && message == error@,
            },
    {
        match lexer.read_number::<i16>() {
            Ok(tenths) => {
                self.komi = Some(Score::from_tenths(tenths));
                Ok(())
            },
            Err(message) => Err(GibParseError::new(message)),
        }
    }

    /// The nickname of the player of `color`.
    pub fn get_nick(&self, color: PlayerColor) -> (nick: Option<&str>)
        ensures
            match nick {
                Some(text) => self@.nick(color) == Some(text@),
                None => self@.nick(color) is None,
            },
    {
        match color {
            PlayerColor::Black => as_text(&self.black_nick),
            PlayerColor::White => as_text(&self.white_nick),
        }
    }

    /// The rank of the player of `color`.
    pub fn get_rank(&self, color: PlayerColor) -> (rank: Option<&str>)
        ensures
            match rank {
                Some(text) => self@.rank(color) == Some(text@),
                None => self@.rank(color) is None,
            },
    {
        match color {
            PlayerColor::Black => as_text(&self.black_rank),
            PlayerColor::White => as_text(&self.white_rank),
        }
    }

    pub fn get_komi(&self) -> (komi: Option<Score>)
        ensures
            komi == self@.komi,
    {
        self.komi
    }

    pub fn get_date(&self) -> (date: Option<LocalDate>)
        ensures
            match date {
                Some(d) => self@.date == Some((d.spec_year(), d.spec_month(), d.spec_day())),
                None => self@.date is None,
            },
    {
        self.date
    }

    /// The result of the game, which the record's code and margin stand for.
    pub fn get_result(&self) -> (result: Option<GameResult>)
        ensures
            result == self@.result(),
    {
        match self.result_code {
            Some(0) => Some(GameResult::Count(PlayerColor::Black, self.margin)),
            Some(1) => Some(GameResult::Count(PlayerColor::White, self.margin)),
            Some(3) => Some(GameResult::Resign(PlayerColor::Black)),
            Some(4) => Some(GameResult::Resign(PlayerColor::White)),
            Some(7) => Some(GameResult::Time(PlayerColor::Black)),
            Some(8) => Some(GameResult::Time(PlayerColor::White)),
            _ => None,
        }
    }

    /// The place of the game.
    pub fn get_game_place(&self) -> (place: Option<&str>)
        ensures
            match place {
                Some(text) => self@.game_place == Some(text@),
                None => self@.game_place is None,
            },
    {
        as_text(&self.game_place)
    }

    pub fn get_handicap(&self) -> (handicap: Option<Handicap>)
        ensures
            match handicap {
                Some(h) => self@.handicap == Some(h.spec_stones()),
                None => self@.handicap is None,
            },
    {
        self.handicap
    }

    /// The moves in the order in which they were played.
    pub fn get_moves(&self) -> (moves: &Vec<GoMove>)
        ensures
            moves@ == self@.moves,
    {
        &self.moves
    }
}

} // verus!
