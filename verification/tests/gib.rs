use gib2sgf::gib::reader::{is_space_char, read_date, trimmed};
use gib2sgf::gib::Gib;
use gib2sgf::go::{BoardCoordinate, GameResult, GoMove, PlayerColor, Score};
use gib2sgf::time::LocalDate;

const GAME: &str = "\\HS\n\
\\[GIBOKIND=China\\]\n\
\\[TYPE=0\\]\n\
\\[GAMEPLACE=Tygem Baduk\\]\n\
\\[GAMEWHITENAME=whitey (6D)\\]\n\
\\[GAMEBLACKNAME=blackie (5D)\\]\n\
\\[GAMEDATE=2009- 3-28-16-33-24\\]\n\
\\[GAMEINFOMAIN=GBKIND:3,GTYPE:0,GCDT:1,GTIME:1200-30-3,GRLT:1,ZIPSU:25,DUM:0,GONGJE:65,TCNT:3,AUSZ:0\\]\n\
\\HE\n\
\\GS\n\
2 1 0\n\
3 0 &4\n\
INI 0 1 0 &4 \n\
STO 0 2 1 15 3 \n\
STO 0 3 2 3 15 \n\
STO 0 4 1 16 15 \n\
\\GE\n";

fn parse(text: &str) -> Gib {
    Gib::parse(text).unwrap()
}

fn failure(text: &str) -> String {
    Gib::parse(text).err().unwrap().to_string()
}

#[test]
fn parses_a_whole_game() {
    let gib = parse(GAME);
    assert_eq!(gib.get_nick(PlayerColor::Black), Some("blackie"));
    assert_eq!(gib.get_rank(PlayerColor::Black), Some("5D"));
    assert_eq!(gib.get_nick(PlayerColor::White), Some("whitey"));
    assert_eq!(gib.get_rank(PlayerColor::White), Some("6D"));
    assert_eq!(gib.get_komi(), Some(Score::from_tenths(65)));
    assert_eq!(gib.get_date(), Some(LocalDate::ymd(2009, 3, 28).unwrap()));
    assert_eq!(
        gib.get_result(),
        Some(GameResult::Count(PlayerColor::White, Some(Score::from_tenths(25))))
    );
    assert_eq!(gib.get_game_place(), Some("Tygem Baduk"));
    assert_eq!(gib.get_handicap(), None);
    assert_eq!(
        gib.get_moves(),
        &vec![
            GoMove::place_stone(PlayerColor::Black, (15, 3)),
            GoMove::place_stone(PlayerColor::White, (3, 15)),
            GoMove::place_stone(PlayerColor::Black, (16, 15)),
        ]
    );
}

#[test]
fn empty_text_is_an_empty_record() {
    for text in ["", " ", "\n\r\t \n"] {
        let gib = parse(text);
        assert_eq!(gib.get_nick(PlayerColor::Black), None);
        assert_eq!(gib.get_rank(PlayerColor::Black), None);
        assert_eq!(gib.get_nick(PlayerColor::White), None);
        assert_eq!(gib.get_rank(PlayerColor::White), None);
        assert_eq!(gib.get_komi(), None);
        assert_eq!(gib.get_date(), None);
        assert_eq!(gib.get_result(), None);
        assert_eq!(gib.get_game_place(), None);
        assert_eq!(gib.get_handicap(), None);
        assert!(gib.get_moves().is_empty());
    }
}

#[test]
fn unknown_tags_and_words_are_passed_over() {
    let gib = parse("junk \\[SZAUDIO=0\\] \\HS more\\junk \\[NOKEY\\]\\[\\] STOP 1 2 INITIAL \\ \\\\ x");
    assert!(gib.get_moves().is_empty());
    assert_eq!(gib.get_handicap(), None);
    assert_eq!(gib.get_game_place(), None);
}

#[test]
fn items_need_no_lines_of_their_own() {
    let gib = parse("\\HS\\[GAMEPLACE=here\\]\\[GAMEINFOMAIN=GONGJE:5\\]x STO 0 2 1\n3\r\n\t4 STO 0 3 2 5 6\\GE");
    assert_eq!(gib.get_game_place(), Some("here"));
    assert_eq!(gib.get_komi(), Some(Score::from_tenths(5)));
    assert_eq!(
        gib.get_moves(),
        &vec![
            GoMove::place_stone(PlayerColor::Black, (3, 4)),
            GoMove::place_stone(PlayerColor::White, (5, 6)),
        ]
    );
}

#[test]
fn names_split_into_nick_and_rank() {
    let gib = parse("\\[GAMEBLACKNAME=  Lee Changho  (9P)\\]\\[GAMEWHITENAME=nobody\\]");
    assert_eq!(gib.get_nick(PlayerColor::Black), Some("Lee Changho"));
    assert_eq!(gib.get_rank(PlayerColor::Black), Some("9P"));
    assert_eq!(gib.get_nick(PlayerColor::White), Some("nobody"));
    assert_eq!(gib.get_rank(PlayerColor::White), None);

    let gib = parse("\\[GAMEBLACKNAME=(3K)\\]\\[GAMEWHITENAME=a()\\]");
    assert_eq!(gib.get_nick(PlayerColor::Black), None);
    assert_eq!(gib.get_rank(PlayerColor::Black), Some("3K"));
    assert_eq!(gib.get_nick(PlayerColor::White), Some("a"));
    assert_eq!(gib.get_rank(PlayerColor::White), None);

    let gib = parse("\\[GAMEBLACKNAME=한국 (9단) x\\]\\[GAMEWHITENAME=b (1D\\]");
    assert_eq!(gib.get_nick(PlayerColor::Black), Some("한국"));
    assert_eq!(gib.get_rank(PlayerColor::Black), Some("9단"));
    assert_eq!(gib.get_nick(PlayerColor::White), Some("b"));
    assert_eq!(gib.get_rank(PlayerColor::White), Some("1D"));

    let gib = parse("\\[GAMEBLACKNAME=\\]");
    assert_eq!(gib.get_nick(PlayerColor::Black), None);
    assert_eq!(gib.get_rank(PlayerColor::Black), None);
}

#[test]
fn the_later_tag_counts() {
    let gib = parse("\\[GAMEPLACE=first\\]\\[GAMEPLACE=second\\]\\[GAMEBLACKNAME=a (1D)\\]\\[GAMEBLACKNAME=b\\]");
    assert_eq!(gib.get_game_place(), Some("second"));
    assert_eq!(gib.get_nick(PlayerColor::Black), Some("b"));
    assert_eq!(gib.get_rank(PlayerColor::Black), None);
    let gib = parse("\\[GAMEPLACE=first\\]\\[GAMEPLACE=  \\]");
    assert_eq!(gib.get_game_place(), None);
}

#[test]
fn result_codes_follow_their_table() {
    let result = |details: &str| parse(&format!("\\[GAMEINFOMAIN={}\\]", details)).get_result();
    let margin = Some(Score::from_tenths(15));
    assert_eq!(result("GRLT:0,ZIPSU:15"), Some(GameResult::Count(PlayerColor::Black, margin)));
    assert_eq!(result("ZIPSU:15,GRLT:1"), Some(GameResult::Count(PlayerColor::White, margin)));
    assert_eq!(result("GRLT:0"), Some(GameResult::Count(PlayerColor::Black, None)));
    assert_eq!(result("GRLT:3,ZIPSU:15"), Some(GameResult::Resign(PlayerColor::Black)));
    assert_eq!(result("GRLT:4"), Some(GameResult::Resign(PlayerColor::White)));
    assert_eq!(result("GRLT:7"), Some(GameResult::Time(PlayerColor::Black)));
    assert_eq!(result("GRLT:8"), Some(GameResult::Time(PlayerColor::White)));
    for code in [2, 5, 6, 9, 10, 255] {
        assert_eq!(result(&format!("GRLT:{},ZIPSU:15", code)), None);
    }
    assert_eq!(result("ZIPSU:15"), None);
    assert_eq!(result(""), None);
}

#[test]
fn game_tag_gives_komi_result_and_date() {
    let gib = parse("\\[GAMETAG=S0,R3,D0,G65,W1,Z35,T30-3-1200,C2009:03:28:16:33,I:white,L:25,M:black,N:25,A:Gx,B:Zz,J:2,K:2\\]");
    assert_eq!(gib.get_komi(), Some(Score::from_tenths(65)));
    assert_eq!(
        gib.get_result(),
        Some(GameResult::Count(PlayerColor::White, Some(Score::from_tenths(35))))
    );
    assert_eq!(gib.get_date(), Some(LocalDate::ymd(2009, 3, 28).unwrap()));
}

#[test]
fn short_keys_count_only_before_a_digit() {
    let gib = parse("\\[GAMETAG=Gx,W,Zebra,Car,C:1,G:5\\]");
    assert_eq!(gib.get_komi(), None);
    assert_eq!(gib.get_result(), None);
    assert_eq!(gib.get_date(), None);
}

#[test]
fn date_tag_may_be_empty_but_not_wrong() {
    assert_eq!(parse("\\[GAMEDATE=\\]").get_date(), None);
    assert_eq!(parse("\\[GAMEDATE=   \\]").get_date(), None);
    assert_eq!(parse("\\[GAMEDATE=2020-2-29\\]").get_date(), Some(LocalDate::ymd(2020, 2, 29).unwrap()));
    assert_eq!(parse("\\[GAMEDATE= 2020-\t2- 29rest\\]").get_date(), Some(LocalDate::ymd(2020, 2, 29).unwrap()));
    assert_eq!(failure("\\[GAMEDATE=2021-2-29\\]"), "invalid month 2021-02-29");
    assert_eq!(failure("\\[GAMEDATE=2021-13-1\\]"), "invalid month 2021-13-01");
    assert_eq!(failure("\\[GAMEDATE=2021\\]"), "Expected '-', but did not see");
    assert_eq!(failure("\\[GAMEDATE=2021-2\\]"), "Expected '-', but did not see");
    assert_eq!(failure("\\[GAMEDATE=2021-\\]"), "not a number ''");
    assert_eq!(failure("\\[GAMEDATE=x\\]"), "not a number ''");
    assert_eq!(failure("\\[GAMEDATE=70000-1-1\\]"), "not a number '70000'");
    assert_eq!(failure("\\[GAMEDATE=2021-300-1\\]"), "not a number '300'");
    assert_eq!(failure("\\[GAMETAG=C2009:03\\]"), "Expected ':', but did not see");
}

#[test]
fn numbers_of_details_must_be_numbers() {
    assert_eq!(failure("\\[GAMEINFOMAIN=GRLT:x\\]"), "not a number ''");
    assert_eq!(failure("\\[GAMEINFOMAIN=GRLT:256\\]"), "not a number '256'");
    assert_eq!(failure("\\[GAMEINFOMAIN=ZIPSU:,GRLT:1\\]"), "not a number ''");
    assert_eq!(failure("\\[GAMEINFOMAIN=GONGJE:32768\\]"), "not a number '32768'");
    assert_eq!(failure("\\[GAMETAG=G32768\\]"), "not a number '32768'");
    assert_eq!(parse("\\[GAMEINFOMAIN=GONGJE:32767\\]").get_komi(), Some(Score::from_tenths(32767)));
    assert_eq!(parse("\\[GAMEINFOMAIN=GONGJE:65xyz\\]").get_komi(), Some(Score::from_tenths(65)));
}

#[test]
fn tags_must_be_closed() {
    assert_eq!(failure("\\[GAMEPLACE=x"), "Expected '\\]', but did not see");
    assert_eq!(failure("\\[GAMEPLACE=x\\"), "Expected '\\]', but did not see");
    assert_eq!(failure("\\[GAMEPLACE=a\\b\\]"), "Expected '\\]', but did not see");
    assert_eq!(failure("\\["), "Expected '\\]', but did not see");
}

#[test]
fn stones_need_all_their_numbers() {
    assert_eq!(failure("STO 0 2 1 15"), "not a number ''");
    assert_eq!(failure("STO 0 2 1 15 \\GE"), "not a number ''");
    assert_eq!(failure("STO "), "not a number ''");
    assert_eq!(failure("STO 0 2 1 15 STO 0 3 2 1 1"), "not a number ''");
    assert_eq!(failure("STO 0 2 1 300 3"), "not a number '300'");
    assert_eq!(failure("STO 0 4294967296 1 3 3"), "not a number '4294967296'");
}

#[test]
fn stones_need_a_player_and_a_point_of_the_board() {
    assert_eq!(failure("STO 0 2 0 15 3"), "unknown player in a move");
    assert_eq!(failure("STO 0 2 3 15 3"), "unknown player in a move");
    assert_eq!(failure("STO 0 2 1 19 3"), "move off the board");
    assert_eq!(failure("STO 0 2 2 3 19"), "move off the board");
    assert_eq!(failure("STO 0 2 3 19 19"), "unknown player in a move");
    assert_eq!(
        parse("STO 0 2 2 18 0").get_moves(),
        &vec![GoMove::PlaceStone {
            player: PlayerColor::White,
            coordinate: BoardCoordinate { x: 18, y: 0 }
        }]
    );
}

#[test]
fn setup_gives_the_handicap() {
    assert_eq!(parse("INI 0 1 0 &4").get_handicap(), None);
    assert_eq!(parse("INI 0 1 1 &4").get_handicap(), None);
    assert_eq!(parse("INI 0 1 2 &4").get_handicap().unwrap().stones(), 2);
    assert_eq!(parse("INI 0 1 9").get_handicap().unwrap().stones(), 9);
    assert_eq!(parse("INI 0 1 9 INI 0 1 0").get_handicap(), None);
    assert_eq!(failure("INI 0 1"), "not a number ''");
    assert_eq!(failure("INI 0 1 &4"), "not a number ''");
    assert_eq!(failure("INI 0 1 256"), "not a number '256'");
}

#[test]
fn passes_belong_to_the_player_whose_turn_it_is() {
    assert_eq!(
        parse("SKI 0 1 \nSKI 0 2 \nSTO 0 3 1 3 3 \nSKI 0 4 \nSTO 0 5 2 4 4\nSKI 0 6 ").get_moves(),
        &vec![
            GoMove::Pass { player: PlayerColor::Black },
            GoMove::Pass { player: PlayerColor::White },
            GoMove::place_stone(PlayerColor::Black, (3, 3)),
            GoMove::Pass { player: PlayerColor::White },
            GoMove::place_stone(PlayerColor::White, (4, 4)),
            GoMove::Pass { player: PlayerColor::Black },
        ]
    );
    assert_eq!(
        parse("INI 0 1 2 &4 \nSKI 0 1 ").get_moves(),
        &vec![GoMove::Pass { player: PlayerColor::White }]
    );
    assert!(parse("SKI").get_moves().is_empty());
}

#[test]
fn a_failure_gives_no_record() {
    let mut text = String::from(GAME);
    text.push_str("STO 0 5 2 19 19\n");
    assert!(Gib::parse(&text).is_err());
    assert_eq!(failure(&text), "move off the board");
    assert_eq!(Gib::parse(&text).err().unwrap().message(), "move off the board");
}

#[test]
fn trimmed_drops_white_space_at_both_ends() {
    assert_eq!(trimmed("  a b \t\r\n"), "a b");
    assert_eq!(trimmed("a"), "a");
    assert_eq!(trimmed(""), "");
    assert_eq!(trimmed(" \n "), "");
    assert_eq!(trimmed(" 한 국 "), "한 국");
    assert_eq!(trimmed("\u{a0}x\u{a0}"), "\u{a0}x\u{a0}");
    assert!(is_space_char(' ') && is_space_char('\t') && is_space_char('\r') && is_space_char('\n'));
    assert!(!is_space_char('x') && !is_space_char('\u{a0}') && !is_space_char('\\'));
}

#[test]
fn read_date_takes_any_separator() {
    assert_eq!(read_date("2009:03:28:16:33", ":").ok(), Some(LocalDate::ymd(2009, 3, 28).ok()));
    assert_eq!(read_date("2009/03/28", "/").ok(), Some(LocalDate::ymd(2009, 3, 28).ok()));
    assert_eq!(read_date("", "/").ok(), Some(None));
    assert_eq!(read_date("2009-03-28", ":").err().unwrap().to_string(), "Expected ':', but did not see");
}
