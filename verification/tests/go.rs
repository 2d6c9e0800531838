use gib2sgf::go::{BoardCoordinate, GoMove, Handicap, PlayerColor, Score};

fn score(value: f32) -> Score {
    Score::from_tenths((value * 10.0) as i16)
}

fn handicap_points(stones: u8) -> Vec<(u8, u8)> {
    Handicap::from(stones).unwrap().handicap_points().iter().map(|p| (p.x, p.y)).collect()
}

#[test]
fn test_formatting_score() {
    assert_eq!(score(0.0).to_string(), "0");
    assert_eq!(score(6.5).to_string(), "6.5");
    assert_eq!(score(-6.5).to_string(), "-6.5");
    assert_eq!(score(0.5).to_string(), "0.5");
    assert_eq!(score(-0.5).to_string(), "-0.5");
    assert_eq!(score(6.0).to_string(), "6");
}

#[test]
fn handicap_placement() {
    assert_eq!(handicap_points(2), vec![(3, 15), (15, 3)]);
    assert_eq!(handicap_points(3), vec![(3, 15), (15, 3), (15, 15)]);
    assert_eq!(handicap_points(4), vec![(3, 15), (15, 3), (15, 15), (3, 3)]);
    assert_eq!(handicap_points(5), vec![(9, 9), (3, 15), (15, 3), (15, 15), (3, 3)]);
    assert_eq!(handicap_points(6), vec![(3, 15), (15, 3), (15, 15), (3, 3), (3, 9), (15, 9)]);
    assert_eq!(handicap_points(7), vec![(9, 9), (3, 15), (15, 3), (15, 15), (3, 3), (3, 9), (15, 9)]);
    assert_eq!(handicap_points(8), vec![(3, 15), (15, 3), (15, 15), (3, 3), (3, 9), (15, 9), (9, 3), (9, 15)]);
    assert_eq!(handicap_points(9), vec![(3, 15), (15, 3), (15, 15), (3, 3), (3, 9), (15, 9), (9, 3), (9, 15), (9, 9)]);
}

#[test]
fn score_keeps_tenths() {
    assert_eq!(Score::from_tenths(65).value, 65);
    assert_eq!(Score::from_tenths(-5), Score { value: -5 });
}

#[test]
fn score_text_at_the_limits() {
    assert_eq!(Score::from_tenths(i16::MAX).to_string(), "3276.7");
    assert_eq!(Score::from_tenths(i16::MIN).to_string(), "-3276.8");
    assert_eq!(Score::from_tenths(1).to_string(), "0.1");
    assert_eq!(Score::from_tenths(-10).to_string(), "-1");
    assert_eq!(Score::from_tenths(1000).to_string(), "100");
}

#[test]
fn handicap_needs_two_stones() {
    assert!(Handicap::from(0).is_none());
    assert!(Handicap::from(1).is_none());
    assert_eq!(Handicap::from(2).unwrap().stones(), 2);
    assert_eq!(Handicap::from(255).unwrap().stones(), 255);
}

#[test]
fn handicap_text_is_the_number_of_stones() {
    assert_eq!(Handicap::from(2).unwrap().to_string(), "2");
    assert_eq!(Handicap::from(9).unwrap().to_string(), "9");
    assert_eq!(Handicap::from(13).unwrap().to_string(), "13");
}

#[test]
fn handicap_above_nine_takes_the_nine_star_points() {
    assert_eq!(handicap_points(10), handicap_points(9));
    assert_eq!(handicap_points(255), handicap_points(9));
}

#[test]
fn handicap_points_lie_on_the_board() {
    for stones in 2..=255u8 {
        for point in Handicap::from(stones).unwrap().handicap_points() {
            assert!(point.is_on_board());
        }
    }
}

#[test]
fn pick_follows_the_color() {
    assert_eq!(PlayerColor::Black.pick(1, 2), 1);
    assert_eq!(PlayerColor::White.pick(1, 2), 2);
    assert_eq!(PlayerColor::White.pick("B", "W"), "W");
}

#[test]
fn place_stone_holds_player_and_point() {
    assert_eq!(
        GoMove::place_stone(PlayerColor::White, (3, 4)),
        GoMove::PlaceStone { player: PlayerColor::White, coordinate: BoardCoordinate::new(3, 4) }
    );
    assert_ne!(
        GoMove::place_stone(PlayerColor::White, (3, 4)),
        GoMove::Pass { player: PlayerColor::White }
    );
}

#[test]
fn points_beyond_the_last_line_are_off_the_board() {
    assert!(BoardCoordinate::new(0, 0).is_on_board());
    assert!(BoardCoordinate::new(18, 18).is_on_board());
    assert!(!BoardCoordinate::new(19, 0).is_on_board());
    assert!(!BoardCoordinate::new(0, 19).is_on_board());
}
