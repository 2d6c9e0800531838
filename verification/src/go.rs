//! Definitions of the game of Go that belong to no file format.

use vstd::prelude::*;
use crate::text::{
    decimal,
    decimal_value,
    digit_char,
    digit_value,
    is_digit,
    lemma_decimal_digits,
    lemma_decimal_value_of_decimal,
    push_char,
    push_decimal,
};

verus! {

/// Number of lines of the board in each direction.
pub const BOARD_SIZE: u8 = 19;

#[derive(Clone, Copy, Debug, PartialEq, Eq, Structural)]
pub enum PlayerColor {
    Black,
    White,
}

/// A point of the board, both axes counted from zero.
#[derive(Clone, Copy, Debug, PartialEq, Eq, Structural)]
pub struct BoardCoordinate {
    pub x: u8,
    pub y: u8,
}

#[derive(Debug, PartialEq, Eq, Structural)]
pub enum GoMove {
    PlaceStone { player: PlayerColor, coordinate: BoardCoordinate },
    Pass { player: PlayerColor },
}

/// A number of handicap stones, which is at least two.
#[derive(Clone, Copy, Debug, PartialEq, Eq)]
pub struct Handicap {
    stones: u8,
}

/// A score with one decimal place.
#[derive(Clone, Copy, Debug, PartialEq, Eq, Structural)]
pub struct Score {
    /// The score in tenths of a point: 6.5 is held as 65.
    pub value: i16,
}

#[derive(Clone, Copy, Debug, PartialEq, Eq, Structural)]
pub enum GameResult {
    Jigo,
    Count(PlayerColor, Option<Score>),
    Resign(PlayerColor),
    Time(PlayerColor),
    Forfeit(PlayerColor),
}

impl PlayerColor {
    /// The first value for black, the second for white.
    pub fn pick<T>(&self, black_option: T, white_option: T) -> (picked: T)
        ensures
            picked == match *self {
                PlayerColor::Black => black_option,
                PlayerColor::White => white_option,
            },
    {
        match self {
            PlayerColor::Black => black_option,
            PlayerColor::White => white_option,
        }
    }

    pub open spec fn opponent(self) -> PlayerColor {
        match self {
            PlayerColor::Black => PlayerColor::White,
            PlayerColor::White => PlayerColor::Black,
        }
    }
}

impl BoardCoordinate {
    pub fn new(x: u8, y: u8) -> (coordinate: BoardCoordinate)
        ensures
            coordinate == (BoardCoordinate { x, y }),
    {
        BoardCoordinate { x, y }
    }

    /// Whether the point lies on the board.
    pub open spec fn on_board(&self) -> bool {
        self.x < BOARD_SIZE && self.y < BOARD_SIZE
    }

    pub fn is_on_board(&self) -> (on_board: bool)
        ensures
            on_board == self.on_board(),
    {
        self.x < BOARD_SIZE && self.y < BOARD_SIZE
    }
}

impl GoMove {
    pub fn place_stone(player: PlayerColor, coordinate: (u8, u8)) -> (placed: GoMove)
        ensures
            placed == (GoMove::PlaceStone {
                player,
                coordinate: BoardCoordinate { x: coordinate.0, y: coordinate.1 },
            }),
    {
        GoMove::PlaceStone { player, coordinate: BoardCoordinate::new(coordinate.0, coordinate.1) }
    }
}

/// The nine star points in the order in which handicap stones take them: the
/// four corners, the four sides, the centre.
pub open spec fn star_points() -> Seq<BoardCoordinate> {
    seq![
        BoardCoordinate { x: 3, y: 15 },
        BoardCoordinate { x: 15, y: 3 },
        BoardCoordinate { x: 15, y: 15 },
        BoardCoordinate { x: 3, y: 3 },
        BoardCoordinate { x: 3, y: 9 },
        BoardCoordinate { x: 15, y: 9 },
        BoardCoordinate { x: 9, y: 3 },
        BoardCoordinate { x: 9, y: 15 },
        BoardCoordinate { x: 9, y: 9 },
    ]
}

/// The points that `stones` handicap stones take, in order. Five and seven
/// stones begin with the centre and go on with the star points from the
/// first; every other number takes the star points from the first, and more
/// than nine stones take all nine and no others.
pub open spec fn handicap_placement(stones: int) -> Seq<BoardCoordinate> {
    if stones == 5 || stones == 7 {
        seq![BoardCoordinate { x: 9, y: 9 }] + star_points().take(stones - 1)
    } else if stones <= 9 {
        star_points().take(stones)
    } else {
        star_points()
    }
}

impl Handicap {
    #[verifier::type_invariant]
    spec fn at_least_two(self) -> bool {
        self.stones >= 2
    }

    pub closed spec fn spec_stones(&self) -> int {
        self.stones as int
    }

    /// The text of the number of stones.
    pub open spec fn spec_text(&self) -> Seq<char> {
        decimal(self.spec_stones() as nat)
    }

    /// A handicap of `stones` stones, if that is two or more.
    pub fn from(stones: u8) -> (handicap: Option<Handicap>)
        ensures
            handicap is Some <==> stones >= 2,
            handicap matches Some(h) ==> h.spec_stones() == stones,
    {
        if stones >= 2 {
            Some(Handicap { stones })
        } else {
            None
        }
    }

    pub fn stones(&self) -> (stones: u8)
        ensures
            stones == self.spec_stones(),
            stones >= 2,
    {
        proof {
            use_type_invariant(self);
        }
        self.stones
    }

    pub fn handicap_points(&self) -> (points: Vec<BoardCoordinate>)
        ensures
            points@ == handicap_placement(self.spec_stones()),
            forall|i: int| 0 <= i < points.len() ==> (#[trigger] points[i]).on_board(),
    {
        proof {
            use_type_invariant(self);
        }
        let mut stones = self.stones;
        let mut result: Vec<BoardCoordinate> = Vec::new();
        let max: u8 = BOARD_SIZE - 1;
        let mid: u8 = max / 2;

        if stones == 5 || stones == 7 {
            result.push(BoardCoordinate::new(mid, mid));
            stones -= 1;
        }
        let candidates: Vec<BoardCoordinate> = vec![
            BoardCoordinate::new(3, max - 3),
            BoardCoordinate::new(max - 3, 3),
            BoardCoordinate::new(max - 3, max - 3),
            BoardCoordinate::new(3, 3),
            BoardCoordinate::new(3, mid),
            BoardCoordinate::new(max - 3, mid),
            BoardCoordinate::new(mid, 3),
            BoardCoordinate::new(mid, max - 3),
            BoardCoordinate::new(mid, mid),
        ];
        assert(candidates@ =~= star_points());
        let ghost centre = result@;
        let count: usize = if stones > 9 {
            9
        } else {
            stones as usize
        };
        let mut i: usize = 0;
        while i < count
            invariant
                i <= count <= 9,
                candidates@ == star_points(),
                result@ == centre + star_points().take(i as int),
                forall|k: int| 0 <= k < result.len() ==> (#[trigger] result[k]).on_board(),
            decreases count - i,
        {
            let point = candidates[i];
            assert(point.on_board());
            result.push(point);
            assert(star_points().take(i + 1) =~= star_points().take(i as int).push(point));
            i += 1;
        }
        result
    }

    pub fn to_string(&self) -> (text: String)
        ensures
            text@ == self.spec_text(),
    {
        let mut text = String::new();
        push_decimal(&mut text, self.stones as u32);
        text
    }
}

/// The text of a score of `value` tenths: the whole points, then a point and
/// one digit unless that digit is zero; a minus sign in front of a negative
/// score.
pub open spec fn score_text(value: int) -> Seq<char> {
    let magnitude = if value < 0 {
        -value
    } else {
        value
    };
    let sign = if value < 0 {
        seq!['-']
    } else {
        Seq::<char>::empty()
    };
    let fraction = if magnitude % 10 == 0 {
        Seq::<char>::empty()
    } else {
        seq!['.', digit_char(magnitude % 10)]
    };
    sign + decimal((magnitude / 10) as nat) + fraction
}

/// The tenths of the score that `text` is the text of: a minus sign in
/// front makes it negative, and a point before the last character makes that
/// character the digit of the tenths.
pub open spec fn score_of_text(text: Seq<char>) -> int {
    let negative = text.len() > 0 && text[0] == '-';
    let body = if negative {
        text.skip(1)
    } else {
        text
    };
    let fraction = body.len() >= 2 && body[body.len() - 2] == '.';
    let magnitude: int = if fraction {
        decimal_value(body.take(body.len() - 2)) as int * 10 + digit_value(body.last())
    } else {
        decimal_value(body) as int * 10
    };
    if negative {
        -magnitude
    } else {
        magnitude
    }
}

/// The text of a score holds the score: read back, it gives the tenths
/// that it was written from. No two scores have the same text.
pub proof fn lemma_score_text_round_trip(value: int)
    ensures
        score_of_text(score_text(value)) == value,
{
    let magnitude = if value < 0 {
        -value
    } else {
        value
    };
    let whole = decimal((magnitude / 10) as nat);
    let text = score_text(value);
    lemma_decimal_digits((magnitude / 10) as nat);
    lemma_decimal_value_of_decimal((magnitude / 10) as nat);
    assert(is_digit(whole[0]));
    assert(is_digit(whole[whole.len() - 1]));
    if whole.len() >= 2 {
        assert(is_digit(whole[whole.len() - 2]));
    }
    let fraction = if magnitude % 10 == 0 {
        Seq::<char>::empty()
    } else {
        seq!['.', digit_char(magnitude % 10)]
    };
    let body = whole + fraction;
    if value < 0 {
        assert(text[0] == '-');
        assert(text.skip(1) =~= body);
    } else {
        assert(text[0] == whole[0]);
        assert(text =~= body);
    }
    if magnitude % 10 == 0 {
        assert(body =~= whole);
    } else {
        assert(body[body.len() - 2] == '.');
        assert(body.take(body.len() - 2) =~= whole);
        assert(digit_value(body.last()) == magnitude % 10);
    }
}

impl Score {
    /// The text of the score.
    pub open spec fn spec_text(&self) -> Seq<char> {
        score_text(self.value as int)
    }

    /// The score of `tenths` tenths of a point.
    pub fn from_tenths(tenths: i16) -> (score: Score)
        ensures
            score == (Score { value: tenths }),
    {
        Score { value: tenths }
    }

    pub fn to_string(&self) -> (text: String)
        ensures
            text@ == self.spec_text(),
    {
        let magnitude: u32 = if self.value < 0 {
            (-(self.value as i32)) as u32
        } else {
            self.value as u32
        };
        let mut text = String::new();
        if self.value < 0 {
            push_char(&mut text, '-');
        }
        push_decimal(&mut text, magnitude / 10);
        if magnitude % 10 != 0 {
            push_char(&mut text, '.');
            push_decimal(&mut text, magnitude % 10);
        }
        assert(text@ =~= self.spec_text());
        text
    }
}

} // verus!
