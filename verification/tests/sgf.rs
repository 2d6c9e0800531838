use gib2sgf::go::{BoardCoordinate, GameResult, Handicap, PlayerColor, Score};
use gib2sgf::sgf::{point_from_sgf, SgfCollection, SgfNode, SgfTree, ToSgf};
use gib2sgf::time::LocalDate;

fn score(value: f32) -> Score {
    Score::from_tenths((value * 10.0) as i16)
}

fn render(node: SgfNode) -> String {
    let mut tree = SgfTree::new();
    tree.add_node(node);
    SgfCollection::from_game(tree).to_sgf()
}

#[test]
fn test_output_generation() {
    let mut root = SgfNode::new();

    root.set_property("PB", "Honinbo Shusaku");
    root.set_property("BR", "7P");
    root.set_property("PW", "Go Seigen");
    root.set_property("WR", "9P");

    root.set_property("RE", "B+37.5");
    root.set_property("KM", score(6.5));
    root.set_property("DT", LocalDate::ymd(2020, 2, 29).unwrap());
    root.set_property("FF", "4");
    root.set_property("GM", "1");
    root.set_property("CA", "UTF-8");
    root.set_property("SZ", "19");

    let mut tree = SgfTree::new();
    tree.add_node(root);

    let collection = SgfCollection::from_game(tree);

    assert_eq!("(;PB[Honinbo Shusaku]BR[7P]PW[Go Seigen]WR[9P]RE[B+37.5]KM[6.5]DT[2020-02-29]FF[4]GM[1]CA[UTF-8]SZ[19])", collection.to_sgf());
}

#[test]
fn formatting_game_results() {
    assert_eq!(GameResult::Jigo.to_sgf(), "0");
    assert_eq!(GameResult::Count(PlayerColor::Black, Some(score(2.5))).to_sgf(), "B+2.5");
    assert_eq!(GameResult::Count(PlayerColor::White, Some(score(50.0))).to_sgf(), "W+50");
    assert_eq!(GameResult::Count(PlayerColor::White, None).to_sgf(), "W+?");
    assert_eq!(GameResult::Resign(PlayerColor::White).to_sgf(), "W+R");
    assert_eq!(GameResult::Time(PlayerColor::White).to_sgf(), "W+T");
    assert_eq!(GameResult::Forfeit(PlayerColor::White).to_sgf(), "W+F");
}

#[test]
fn board_coordinates() {
    assert_eq!(BoardCoordinate { x: 0, y: 0 }.to_sgf(), "aa");
    assert_eq!(BoardCoordinate { x: 4, y: 8 }.to_sgf(), "ei");
    assert_eq!(BoardCoordinate { x: 18, y: 17 }.to_sgf(), "sr");
}

#[test]
fn black_results_use_the_letter_b() {
    assert_eq!(GameResult::Resign(PlayerColor::Black).to_sgf(), "B+R");
    assert_eq!(GameResult::Time(PlayerColor::Black).to_sgf(), "B+T");
    assert_eq!(GameResult::Forfeit(PlayerColor::Black).to_sgf(), "B+F");
    assert_eq!(GameResult::Count(PlayerColor::Black, None).to_sgf(), "B+?");
    assert_eq!(PlayerColor::Black.sgf_color(), "B");
    assert_eq!(PlayerColor::White.sgf_color(), "W");
}

#[test]
fn every_point_of_the_board_has_its_own_two_letters() {
    let mut seen = Vec::new();
    for x in 0..19u8 {
        for y in 0..19u8 {
            let text = BoardCoordinate::new(x, y).to_sgf();
            assert_eq!(text.len(), 2);
            assert!(text.bytes().all(|b| (b'a'..=b's').contains(&b)));
            assert!(!seen.contains(&text));
            seen.push(text);
        }
    }
    assert_eq!(seen.len(), 361);
}

#[test]
fn two_letters_name_the_point_that_renders_as_them() {
    for x in 0..19u8 {
        for y in 0..19u8 {
            let point = BoardCoordinate::new(x, y);
            assert_eq!(point_from_sgf(&point.to_sgf()), Some(point));
        }
    }
    assert_eq!(point_from_sgf("aa"), Some(BoardCoordinate::new(0, 0)));
    assert_eq!(point_from_sgf("sr"), Some(BoardCoordinate::new(18, 17)));
    for text in ["", "a", "aaa", "at", "ta", "Aa", "a ", "a한", "{a", "`a"] {
        assert_eq!(point_from_sgf(text), None);
    }
}

#[test]
fn plain_values_render_as_they_are() {
    assert_eq!("Go Seigen".to_sgf(), "Go Seigen");
    assert_eq!("".to_sgf(), "");
    assert_eq!(score(-0.5).to_sgf(), "-0.5");
    assert_eq!(Handicap::from(4).unwrap().to_sgf(), "4");
    assert_eq!(LocalDate::ymd(2009, 3, 28).unwrap().to_sgf(), "2009-03-28");
}

#[test]
fn empty_node_renders_as_a_semicolon() {
    assert_eq!(render(SgfNode::new()), "(;)");
}

#[test]
fn empty_collection_parts_render_without_separators() {
    assert_eq!(SgfCollection::from_game(SgfTree::new()).to_sgf(), "()");
}

#[test]
fn setting_a_property_again_replaces_it_and_moves_it_last() {
    let mut node = SgfNode::new();
    node.set_property("PB", "first");
    node.set_property("PW", "other");
    node.set_property("PB", "second");
    assert_eq!(render(node), "(;PW[other]PB[second])");
}

#[test]
fn property_list_renders_each_value_in_brackets() {
    let mut node = SgfNode::new();
    node.set_property_list("AB", vec![BoardCoordinate::new(3, 15), BoardCoordinate::new(15, 3)]);
    node.set_property_list("AW", Vec::<BoardCoordinate>::new());
    assert_eq!(render(node), "(;AB[dp][pd]AW)");
}

#[test]
fn absent_value_sets_no_property() {
    let mut node = SgfNode::new();
    node.set_property_maybe("KM", None::<Score>);
    node.set_property_maybe("PB", Some("Shusaku"));
    assert_eq!(render(node), "(;PB[Shusaku])");
}

#[test]
fn closing_brackets_and_backslashes_in_values_are_escaped() {
    let mut node = SgfNode::new();
    node.set_property("C", "a]b\\c[d");
    node.set_property_list("N", vec!["]", "\\", "\\]", "", "한]"]);
    assert_eq!(render(node), "(;C[a\\]b\\\\c[d]N[\\]][\\\\][\\\\\\]][][한\\]])");
}

#[test]
fn moves_become_nodes_of_their_own() {
    let mut tree = SgfTree::new();
    tree.add_node(SgfNode::new());
    tree.add_move(PlayerColor::Black, BoardCoordinate::new(15, 3));
    tree.add_move(PlayerColor::White, BoardCoordinate::new(3, 15));
    tree.add_node(SgfNode::new_move(PlayerColor::Black, BoardCoordinate::new(0, 18)));
    assert_eq!(SgfCollection::from_game(tree).to_sgf(), "(;;B[pd];W[dp];B[as])");
}

#[test]
fn child_trees_follow_the_nodes_in_brackets_of_their_own() {
    let mut first = SgfTree::new();
    first.add_move(PlayerColor::White, BoardCoordinate::new(2, 2));
    let mut second = SgfTree::new();
    second.add_move(PlayerColor::White, BoardCoordinate::new(3, 3));
    let mut inner = SgfTree::new();
    inner.add_move(PlayerColor::Black, BoardCoordinate::new(4, 4));
    second.add_child(inner);
    let mut tree = SgfTree::new();
    tree.add_move(PlayerColor::Black, BoardCoordinate::new(1, 1));
    tree.add_child(first);
    tree.add_child(second);
    assert_eq!(SgfCollection::from_game(tree).to_sgf(), "(;B[bb](;W[cc])(;W[dd](;B[ee])))");
}

#[test]
fn rendering_twice_gives_the_same_text() {
    let mut root = SgfNode::new();
    root.set_property("PB", "Honinbo Shusaku");
    root.set_property("KM", score(6.5));
    let mut tree = SgfTree::new();
    tree.add_node(root);
    tree.add_move(PlayerColor::Black, BoardCoordinate::new(15, 3));
    let collection = SgfCollection::from_game(tree);
    let once = collection.to_sgf();
    let twice = collection.to_sgf();
    assert_eq!(once, twice);
    assert_eq!(once, "(;PB[Honinbo Shusaku]KM[6.5];B[pd])");
}
