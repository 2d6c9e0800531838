//! The conversion of a GIB text to an SGF text.

use vstd::prelude::*;
use vstd::string::*;
use crate::chars::chars_of;
use crate::gib::format::{parse_text, playable, GibView};
use crate::gib::reader::GibParseError;
use crate::gib::Gib;
use crate::go::{handicap_placement, BoardCoordinate, GoMove, Handicap, PlayerColor};
use crate::sgf::{
    color_text,
    coordinate_text,
    lemma_coordinate_text_plain,
    lemma_nodes_text_concat,
    lemma_single_property_text,
    named_otherwise,
    nodes_text,
    properties_text,
    tree_text,
    trees_text,
    with_property,
    SgfCollection,
    SgfNode,
    SgfTree,
    SgfTreeView,
    ToSgf,
};
use crate::text::{decimal, find, find_from, push_chars};
use crate::time::iso_text;

verus! {

/// The name and version of this converter, as the SGF text gives them.
pub open spec fn application_text() -> Seq<char> {
    "gib2sgf:0.1.0"@
}

/// The name and version of this converter, as the SGF text gives them.
pub fn application() -> (text: &'static str)
    ensures
        text@ == application_text(),
{
    "gib2sgf:0.1.0"
}

/// An SGF text without the first property in which this converter, of
/// whatever version, names itself: what stands from `AP[gib2sgf:` up to the
/// next closing square bracket is left out. A text without such a property,
/// or without a bracket that closes it, stays as it is.
pub open spec fn without_application(sgf: Seq<char>) -> Seq<char> {
    match find_from(sgf, "AP[gib2sgf:"@, 0) {
        Some(start) => match find_from(sgf, "]"@, start) {
            Some(end) => sgf.take(start) + sgf.skip(end + 1),
            None => sgf,
        },
        None => sgf,
    }
}

/// The SGF text `str` without the property in which this converter names
/// itself, so that texts of different versions can be compared.
pub fn remove_app_version_from_sgf(str: &str) -> (text: String)
    ensures
        text@ == without_application(str@),
{
    let sgf = chars_of(str);
    let marker = chars_of("AP[gib2sgf:");
    let bracket = chars_of("]");
    proof {
        reveal_strlit("]");
    }
    match find(&sgf, &marker, 0) {
        Some(start) => match find(&sgf, &bracket, start) {
            Some(end) => {
                let mut text = String::new();
                push_chars(&mut text, &sgf, 0, start);
                push_chars(&mut text, &sgf, end + 1, sgf.len());
                proof {
                    assert(sgf@.subrange(0, start as int) =~= sgf@.take(start as int));
                    assert(sgf@.subrange(end + 1, sgf.len() as int) =~= sgf@.skip(end + 1));
                }
                text
            },
            None => String::from_str(str),
        },
        None => String::from_str(str),
    }
}

/// The property `name` with the one value `value`, if there is a value.
pub open spec fn optional_property(name: Seq<char>, value: Option<Seq<char>>) -> Seq<
    (Seq<char>, Seq<Seq<char>>),
> {
    match value {
        Some(text) => seq![(name, seq![text])],
        None => Seq::empty(),
    }
}

/// The text of a value that has one, if the value is there.
pub open spec fn optional_text<T: ToSgf>(value: Option<T>) -> Option<Seq<char>> {
    match value {
        Some(v) => Some(v.sgf_text()),
        None => None,
    }
}

/// The properties that every converted game has: the rules, the size of
/// the board, the game, the version of the file format, the character set
/// and the converter.
pub open spec fn fixed_properties() -> Seq<(Seq<char>, Seq<Seq<char>>)> {
    seq![
        ("RU"@, seq!["Japanese"@]),
        ("SZ"@, seq!["19"@]),
        ("GM"@, seq!["1"@]),
        ("FF"@, seq!["4"@]),
        ("CA"@, seq!["UTF-8"@]),
        ("AP"@, seq![application_text()]),
    ]
}

/// The properties of a handicap: the number of stones, then the points
/// where they stand.
pub open spec fn handicap_properties(handicap: Option<int>) -> Seq<(Seq<char>, Seq<Seq<char>>)> {
    match handicap {
        Some(stones) => seq![
            ("HA"@, seq![decimal(stones as nat)]),
            (
                "AB"@,
                handicap_placement(stones).map_values(
                    |point: BoardCoordinate| coordinate_text(point),
                ),
            ),
        ],
        None => Seq::empty(),
    }
}

/// The properties of what a record holds of its players, komi, date, result
/// and place, in this order; what the record lacks has no property.
pub open spec fn metadata_properties(record: GibView) -> Seq<(Seq<char>, Seq<Seq<char>>)> {
    optional_property("PB"@, record.black_nick) + optional_property("BR"@, record.black_rank)
        + optional_property("PW"@, record.white_nick) + optional_property(
        "WR"@,
        record.white_rank,
    ) + optional_property("KM"@, optional_text(record.komi)) + optional_property(
        "DT"@,
        match record.date {
            Some(date) => Some(iso_text(date.0, date.1, date.2)),
            None => None,
        },
    ) + optional_property("RE"@, optional_text(record.result())) + optional_property(
        "SO"@,
        record.game_place,
    )
}

/// The properties of the root node of a record: those of what the record
/// holds, then the fixed properties, then those of the handicap.
pub open spec fn root_properties(record: GibView) -> Seq<(Seq<char>, Seq<Seq<char>>)> {
    metadata_properties(record) + fixed_properties() + handicap_properties(record.handicap)
}

/// A record that lacks players, komi, date, result, place and handicap has
/// a root node with the fixed properties and no others.
pub proof fn lemma_bare_record_keeps_fixed_properties(record: GibView)
    requires
        record.black_nick is None,
        record.black_rank is None,
        record.white_nick is None,
        record.white_rank is None,
        record.komi is None,
        record.date is None,
        record.result() is None,
        record.game_place is None,
        record.handicap is None,
    ensures
        root_properties(record) == fixed_properties(),
{
    assert(root_properties(record) =~= fixed_properties());
}

/// The root node of every record holds the fixed properties, in their
/// order and next to each other, behind the properties of what the record
/// holds.
pub proof fn lemma_root_keeps_fixed_properties(record: GibView)
    ensures
        root_properties(record).subrange(
            metadata_properties(record).len() as int,
            metadata_properties(record).len() as int + 6,
        ) == fixed_properties(),
        fixed_properties().len() == 6,
{
    let metadata = metadata_properties(record);
    assert(root_properties(record).subrange(
        metadata.len() as int,
        metadata.len() as int + 6,
    ) =~= fixed_properties());
}

/// The node of a move: the letter of the player as the name, the point as
/// the value; a pass has the empty value.
pub open spec fn move_node(played: GoMove) -> Seq<(Seq<char>, Seq<Seq<char>>)> {
    match played {
        GoMove::PlaceStone { player, coordinate } => seq![
            (color_text(player), seq![coordinate_text(coordinate)]),
        ],
        GoMove::Pass { player } => seq![(color_text(player), seq![Seq::<char>::empty()])],
    }
}

/// The game tree of a record: the root node, then one node for each move.
pub open spec fn game_tree(record: GibView) -> SgfTreeView {
    SgfTreeView {
        nodes: seq![root_properties(record)] + record.moves.map_values(
            |played: GoMove| move_node(played),
        ),
        children: Seq::empty(),
    }
}

/// The SGF text of a record.
pub open spec fn sgf_text(record: GibView) -> Seq<char> {
    trees_text(seq![game_tree(record)])
}

/// The SGF text of a record, part by part: between round brackets the root
/// node with its properties, then the nodes of the moves in their order.
pub proof fn lemma_sgf_text_parts(record: GibView)
    ensures
        sgf_text(record) == seq!['('] + seq![';'] + properties_text(root_properties(record))
            + nodes_text(record.moves.map_values(|played: GoMove| move_node(played))) + seq![')'],
{
    reveal_with_fuel(nodes_text, 2);
    reveal_with_fuel(trees_text, 2);
    let root = seq![root_properties(record)];
    let moves = record.moves.map_values(|played: GoMove| move_node(played));
    let tree = game_tree(record);
    let none = Seq::<SgfTreeView>::empty();
    assert(seq![tree].drop_last() =~= none);
    assert(trees_text(seq![tree]) =~= tree_text(tree));
    assert(tree.children =~= none);
    lemma_nodes_text_concat(root, moves);
    assert(root.drop_last() =~= Seq::<Seq<(Seq<char>, Seq<Seq<char>>)>>::empty());
    assert(nodes_text(root) =~= seq![';'] + properties_text(root_properties(record)));
    assert(sgf_text(record) =~= seq!['('] + seq![';'] + properties_text(root_properties(record))
        + nodes_text(moves) + seq![')']);
}

/// The text of the node of a stone on the board: a semicolon, the letter
/// of the player, and the two letters of the point between square brackets.
pub proof fn lemma_stone_node_text(player: PlayerColor, coordinate: BoardCoordinate)
    requires
        coordinate.on_board(),
    ensures
        nodes_text(seq![move_node(GoMove::PlaceStone { player, coordinate })]) == seq![';']
            + color_text(player) + seq!['['] + coordinate_text(coordinate) + seq![']'],
{
    lemma_single_property_text(color_text(player), coordinate_text(coordinate));
    lemma_coordinate_text_plain(coordinate);
}

/// The place of a property name in the root node; 16 for any other name.
#[verifier::opaque]
spec fn rank_of(name: Seq<char>) -> int {
    if name == "PB"@ {
        0
    } else if name == "BR"@ {
        1
    } else if name == "PW"@ {
        2
    } else if name == "WR"@ {
        3
    } else if name == "KM"@ {
        4
    } else if name == "DT"@ {
        5
    } else if name == "RE"@ {
        6
    } else if name == "SO"@ {
        7
    } else if name == "RU"@ {
        8
    } else if name == "SZ"@ {
        9
    } else if name == "GM"@ {
        10
    } else if name == "FF"@ {
        11
    } else if name == "CA"@ {
        12
    } else if name == "AP"@ {
        13
    } else if name == "HA"@ {
        14
    } else if name == "AB"@ {
        15
    } else {
        16
    }
}

/// Whether every name of `entries` has a place before `rank`.
spec fn ranked_below(entries: Seq<(Seq<char>, Seq<Seq<char>>)>, rank: int) -> bool {
    forall|i: int| 0 <= i < entries.len() ==> rank_of((#[trigger] entries[i]).0) < rank
}

/// The names of the root node's properties differ from each other.
proof fn lemma_ranks()
    ensures
        rank_of("PB"@) == 0,
        rank_of("BR"@) == 1,
        rank_of("PW"@) == 2,
        rank_of("WR"@) == 3,
        rank_of("KM"@) == 4,
        rank_of("DT"@) == 5,
        rank_of("RE"@) == 6,
        rank_of("SO"@) == 7,
        rank_of("RU"@) == 8,
        rank_of("SZ"@) == 9,
        rank_of("GM"@) == 10,
        rank_of("FF"@) == 11,
        rank_of("CA"@) == 12,
        rank_of("AP"@) == 13,
        rank_of("HA"@) == 14,
        rank_of("AB"@) == 15,
{
    reveal(rank_of);
    reveal_strlit("PB");
    reveal_strlit("BR");
    reveal_strlit("PW");
    reveal_strlit("WR");
    reveal_strlit("KM");
    reveal_strlit("DT");
    reveal_strlit("RE");
    reveal_strlit("SO");
    reveal_strlit("RU");
    reveal_strlit("SZ");
    reveal_strlit("GM");
    reveal_strlit("FF");
    reveal_strlit("CA");
    reveal_strlit("AP");
    reveal_strlit("HA");
    reveal_strlit("AB");
    assert("PB"@[0] == 'P' && "PB"@[1] == 'B');
    assert("BR"@[0] == 'B' && "BR"@[1] == 'R');
    assert("PW"@[0] == 'P' && "PW"@[1] == 'W');
    assert("WR"@[0] == 'W' && "WR"@[1] == 'R');
    assert("KM"@[0] == 'K' && "KM"@[1] == 'M');
    assert("DT"@[0] == 'D' && "DT"@[1] == 'T');
    assert("RE"@[0] == 'R' && "RE"@[1] == 'E');
    assert("SO"@[0] == 'S' && "SO"@[1] == 'O');
    assert("RU"@[0] == 'R' && "RU"@[1] == 'U');
    assert("SZ"@[0] == 'S' && "SZ"@[1] == 'Z');
    assert("GM"@[0] == 'G' && "GM"@[1] == 'M');
    assert("FF"@[0] == 'F' && "FF"@[1] == 'F');
    assert("CA"@[0] == 'C' && "CA"@[1] == 'A');
    assert("AP"@[0] == 'A' && "AP"@[1] == 'P');
    assert("HA"@[0] == 'H' && "HA"@[1] == 'A');
    assert("AB"@[0] == 'A' && "AB"@[1] == 'B');
}

/// A filter that every entry passes leaves the entries as they are.
proof fn lemma_filter_keeps_all(
    entries: Seq<(Seq<char>, Seq<Seq<char>>)>,
    keep: spec_fn((Seq<char>, Seq<Seq<char>>)) -> bool,
)
    requires
        forall|i: int| 0 <= i < entries.len() ==> keep(#[trigger] entries[i]),
    ensures
        entries.filter(keep) == entries,
    decreases entries.len(),
{
    reveal(Seq::filter);
    if entries.len() > 0 {
        let front = entries.drop_last();
        assert forall|i: int| 0 <= i < front.len() implies keep(#[trigger] front[i]) by {
            assert(front[i] == entries[i]);
        }
        lemma_filter_keeps_all(front, keep);
        assert(keep(entries[entries.len() - 1]));
        assert(front.push(entries.last()) =~= entries);
    }
}

/// A property whose name comes behind all names of a node is added behind
/// the node's properties.
proof fn lemma_set_next(
    entries: Seq<(Seq<char>, Seq<Seq<char>>)>,
    name: Seq<char>,
    values: Seq<Seq<char>>,
    rank: int,
)
    requires
        ranked_below(entries, rank),
        rank_of(name) == rank,
    ensures
        with_property(entries, name, values) == entries.push((name, values)),
        ranked_below(entries.push((name, values)), rank + 1),
        ranked_below(entries, rank + 1),
{
    assert forall|i: int| 0 <= i < entries.len() implies named_otherwise(name)(
        #[trigger] entries[i],
    ) by {
        assert(rank_of(entries[i].0) < rank);
    }
    lemma_filter_keeps_all(entries, named_otherwise(name));
    let after = entries.push((name, values));
    assert forall|i: int| 0 <= i < after.len() implies rank_of((#[trigger] after[i]).0) < rank
        + 1 by {
        if i < entries.len() {
            assert(after[i] == entries[i]);
        }
    }
}

/// Sets the property `name` of `node`, whose names all come before it, to
/// `value` if there is one.
fn sets_maybe<T: ToSgf>(node: &mut SgfNode, name: &str, value: Option<T>, Ghost(rank): Ghost<int>)
    requires
        value matches Some(v) ==> v.has_sgf(),
        ranked_below(old(node)@, rank),
        rank_of(name@) == rank,
    ensures
        final(node)@ == old(node)@ + optional_property(name@, optional_text(value)),
        ranked_below(final(node)@, rank + 1),
{
    let ghost text = optional_text(value);
    proof {
        match text {
            Some(text) => {
                lemma_set_next(node@, name@, seq![text], rank);
                assert(node@.push((name@, seq![text])) =~= node@ + seq![(name@, seq![text])]);
            },
            None => {
                assert(node@ + Seq::<(Seq<char>, Seq<Seq<char>>)>::empty() =~= node@);
            },
        }
    }
    node.set_property_maybe(name, value);
}

/// Gives `root`, which has no properties yet, those of what `gib` holds of
/// its players, komi, date, result and place.
fn set_metadata(root: &mut SgfNode, gib: &Gib)
    requires
        old(root)@.len() == 0,
    ensures
        final(root)@ == metadata_properties(gib@),
        ranked_below(final(root)@, 8),
{
    proof {
        lemma_ranks();
    }
    sets_maybe(root, "PB", gib.get_nick(PlayerColor::Black), Ghost(0));
    sets_maybe(root, "BR", gib.get_rank(PlayerColor::Black), Ghost(1));
    sets_maybe(root, "PW", gib.get_nick(PlayerColor::White), Ghost(2));
    sets_maybe(root, "WR", gib.get_rank(PlayerColor::White), Ghost(3));
    sets_maybe(root, "KM", gib.get_komi(), Ghost(4));
    sets_maybe(root, "DT", gib.get_date(), Ghost(5));
    sets_maybe(root, "RE", gib.get_result(), Ghost(6));
    sets_maybe(root, "SO", gib.get_game_place(), Ghost(7));
    assert(root@ =~= metadata_properties(gib@));
}

/// Gives `root` the properties that every converted game has.
fn set_fixed(root: &mut SgfNode)
    requires
        ranked_below(old(root)@, 8),
    ensures
        final(root)@ == old(root)@ + fixed_properties(),
        ranked_below(final(root)@, 14),
{
    proof {
        lemma_ranks();
    }
    sets_maybe(root, "RU", Some("Japanese"), Ghost(8));
    sets_maybe(root, "SZ", Some("19"), Ghost(9));
    sets_maybe(root, "GM", Some("1"), Ghost(10));
    sets_maybe(root, "FF", Some("4"), Ghost(11));
    sets_maybe(root, "CA", Some("UTF-8"), Ghost(12));
    sets_maybe(root, "AP", Some(application()), Ghost(13));
    assert(root@ =~= old(root)@ + fixed_properties());
}

/// Gives `root` the properties of `handicap`, if there is one.
fn set_handicap(root: &mut SgfNode, handicap: Option<Handicap>)
    requires
        ranked_below(old(root)@, 14),
    ensures
        final(root)@ == old(root)@ + handicap_properties(
            match handicap {
                Some(h) => Some(h.spec_stones()),
                None => None,
            },
        ),
{
    proof {
        lemma_ranks();
    }
    match handicap {
        Some(handicap) => {
            sets_maybe(root, "HA", Some(handicap), Ghost(14));
            let points = handicap.handicap_points();
            let ghost texts = Seq::new(points.len() as nat, |i: int| points[i].sgf_text());
            proof {
                lemma_set_next(root@, "AB"@, texts, 15);
                assert(texts =~= handicap_placement(handicap.spec_stones()).map_values(
                    |point: BoardCoordinate| coordinate_text(point),
                ));
            }
            root.set_property_list("AB", points);
            assert(root@ =~= old(root)@ + handicap_properties(Some(handicap.spec_stones())));
        },
        None => {
            assert(root@ =~= old(root)@ + Seq::<(Seq<char>, Seq<Seq<char>>)>::empty());
        },
    }
}

/// The root node of the game of `gib`.
fn root_node(gib: &Gib) -> (root: SgfNode)
    ensures
        root@ == root_properties(gib@),
{
    let mut root = SgfNode::new();
    set_metadata(&mut root, gib);
    set_fixed(&mut root);
    set_handicap(&mut root, gib.get_handicap());
    root
}

/// Converts a GIB text to an SGF text. Both are the whole contents of a
/// file. Fails, with the parser's message, where the GIB text is unreadable.
pub fn gib_to_sgf(gib_data: &str) -> (result: Result<String, GibParseError>)
    ensures
        match result {
            Ok(text) => parse_text(gib_data@) matches Ok(record) && text@ == sgf_text(record),
            Err(error) => parse_text(gib_data@) matches Err(message) && message == error@,
        },
{
    let gib = match Gib::parse(gib_data) {
        Ok(gib) => gib,
        Err(error) => {
            return Err(error);
        },
    };
    let root = root_node(&gib);
    let mut game = SgfTree::new();
    game.add_node(root);
    let moves = gib.get_moves();
    let mut i: usize = 0;
    while i < moves.len()
        invariant
            i <= moves.len(),
            moves@ == gib@.moves,
            gib@.wf(),
            game@.children.len() == 0,
            game@.nodes == seq![root_properties(gib@)] + gib@.moves.take(i as int).map_values(
                |played: GoMove| move_node(played),
            ),
        decreases moves.len() - i,
    {
        assert(playable(gib@.moves[i as int]));
        match &moves[i] {
            GoMove::PlaceStone { player, coordinate } => {
                game.add_move(*player, *coordinate);
            },
            GoMove::Pass { player } => {
                game.add_pass(*player);
            },
        }
        proof {
            let played = gib@.moves;
            let node = |played: GoMove| move_node(played);
            assert(played.take(i + 1).map_values(node) =~= played.take(i as int).map_values(
                node,
            ).push(move_node(played[i as int])));
            assert(game@.nodes =~= seq![root_properties(gib@)] + played.take(i + 1).map_values(
                node,
            ));
        }
        i += 1;
    }
    proof {
        assert(gib@.moves.take(i as int) =~= gib@.moves);
        assert(game@.children =~= Seq::<SgfTreeView>::empty());
        assert(game@ == game_tree(gib@));
    }
    Ok(SgfCollection::from_game(game).to_sgf())
}

} // verus!
