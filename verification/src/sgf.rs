//! The SGF property tree and its text.

use vstd::prelude::*;
use vstd::string::*;
use linked_hash_map::LinkedHashMap;
use crate::chars::chars_of;
use crate::go::{BoardCoordinate, GameResult, Handicap, PlayerColor, Score};
use crate::text::push_char;
use crate::time::LocalDate;

verus! {

/// The map of the crate `linked_hash_map`, which keeps its entries in the
/// order in which they were inserted. Nothing of its inside is known here;
/// what it holds goes by the name [`entries_of`].
#[verifier::external_type_specification]
#[verifier::external_body]
#[verifier::reject_recursive_types(K)]
#[verifier::reject_recursive_types(V)]
#[verifier::reject_recursive_types(S)]
pub struct ExLinkedHashMap<K, V, S>(LinkedHashMap<K, V, S>);

/// What a map of properties holds: each name with its values, in the order
/// in which the map is walked.
pub uninterp spec fn entries_of(map: LinkedHashMap<String, Vec<String>>) -> Seq<
    (Seq<char>, Seq<Seq<char>>),
>;

/// The texts of a list of strings.
pub open spec fn texts_of(strings: Seq<String>) -> Seq<Seq<char>> {
    strings.map_values(|s: String| s@)
}

/// The test that a property has another name than `name`.
pub open spec fn named_otherwise(name: Seq<char>) -> spec_fn((Seq<char>, Seq<Seq<char>>)) -> bool {
    |entry: (Seq<char>, Seq<Seq<char>>)| entry.0 != name
}

/// The properties `entries` once `name` is set to `values`: an earlier
/// property of that name is gone, and the new one stands last.
pub open spec fn with_property(
    entries: Seq<(Seq<char>, Seq<Seq<char>>)>,
    name: Seq<char>,
    values: Seq<Seq<char>>,
) -> Seq<(Seq<char>, Seq<Seq<char>>)> {
    entries.filter(named_otherwise(name)).push((name, values))
}

/// Whether no two of `entries` have the same name.
pub open spec fn distinct_names(entries: Seq<(Seq<char>, Seq<Seq<char>>)>) -> bool {
    forall|i: int, j: int|
        0 <= i < j < entries.len() ==> (#[trigger] entries[i]).0 != (#[trigger] entries[j]).0
}

/// An empty map of properties.
///
/// Trusted: the body is `LinkedHashMap::new`, which makes a map without
/// entries.
#[verifier::external_body]
fn new_properties() -> (map: LinkedHashMap<String, Vec<String>>)
    ensures
        entries_of(map) == Seq::<(Seq<char>, Seq<Seq<char>>)>::empty(),
{
    LinkedHashMap::new()
}

/// Sets the property `name` of `map` to `values`.
///
/// Trusted: the body is `LinkedHashMap::insert`. For a new key it adds the
/// entry behind all others. For a key that the map holds it replaces the
/// value and moves the entry behind all others.
#[verifier::external_body]
fn insert_property(map: &mut LinkedHashMap<String, Vec<String>>, name: String, values: Vec<String>)
    ensures
        entries_of(*final(map)) == with_property(entries_of(*old(map)), name@, texts_of(values@)),
{
    map.insert(name, values);
}

/// The entries of `map` in the order in which it is walked.
///
/// Trusted: the body is `LinkedHashMap::iter`, which visits every entry
/// once, in the order of insertion; the references are collected as they
/// come.
#[verifier::external_body]
fn properties_in_order<'a>(map: &'a LinkedHashMap<String, Vec<String>>) -> (entries: Vec<
    (&'a String, &'a Vec<String>),
>)
    ensures
        entries@.len() == entries_of(*map).len(),
        forall|i: int|
            0 <= i < entries@.len() ==> {
                &&& (#[trigger] entries@[i]).0@ == entries_of(*map)[i].0
                &&& texts_of(entries@[i].1@) == entries_of(*map)[i].1
            },
{
    map.iter().collect()
}

/// Whether `c` has a meaning of its own inside a value: the square bracket
/// that closes the value, and the backslash.
pub open spec fn is_special(c: char) -> bool {
    c == ']' || c == '\\'
}

/// A value as it stands between its square brackets: with a backslash in
/// front of every closing square bracket and every backslash.
pub open spec fn escaped(value: Seq<char>) -> Seq<char>
    decreases value.len(),
{
    if value.len() == 0 {
        Seq::empty()
    } else if is_special(value.last()) {
        escaped(value.drop_last()) + seq!['\\', value.last()]
    } else {
        escaped(value.drop_last()).push(value.last())
    }
}

/// The value that stands between its square brackets as `text`: a backslash
/// is left out, and the character behind it is taken as it is.
pub open spec fn unescaped(text: Seq<char>) -> Seq<char>
    decreases text.len(),
{
    if text.len() == 0 {
        Seq::empty()
    } else if text[0] == '\\' && text.len() >= 2 {
        seq![text[1]] + unescaped(text.skip(2))
    } else {
        seq![text[0]] + unescaped(text.skip(1))
    }
}

/// Two values in a row are escaped each for itself.
pub proof fn lemma_escaped_concat(first: Seq<char>, second: Seq<char>)
    ensures
        escaped(first + second) == escaped(first) + escaped(second),
    decreases second.len(),
{
    if second.len() == 0 {
        assert(first + second =~= first);
        assert(escaped(first) + escaped(second) =~= escaped(first));
    } else {
        lemma_escaped_concat(first, second.drop_last());
        assert((first + second).drop_last() =~= first + second.drop_last());
        assert((first + second).last() == second.last());
        assert(escaped(first + second) =~= escaped(first) + escaped(second));
    }
}

/// Escaping loses nothing: a reader that takes the backslashes out again
/// has the value as it was.
pub proof fn lemma_unescaped_escaped(value: Seq<char>)
    ensures
        unescaped(escaped(value)) == value,
    decreases value.len(),
{
    if value.len() > 0 {
        let head = seq![value[0]];
        let tail = value.drop_first();
        assert(value =~= head + tail);
        lemma_escaped_concat(head, tail);
        lemma_unescaped_escaped(tail);
        assert(head.drop_last() =~= Seq::<char>::empty());
        assert(escaped(head.drop_last()) =~= Seq::<char>::empty());
        let rest = escaped(tail);
        if is_special(value[0]) {
            assert(escaped(head) =~= seq!['\\', value[0]]);
            assert(escaped(value).skip(2) =~= rest);
        } else {
            assert(escaped(head) =~= head);
            assert(escaped(value).skip(1) =~= rest);
        }
        assert(unescaped(escaped(value)) =~= value);
    }
}

/// The text of the values of a property: each between square brackets.
pub open spec fn values_text(values: Seq<Seq<char>>) -> Seq<char>
    decreases values.len(),
{
    if values.len() == 0 {
        Seq::empty()
    } else {
        values_text(values.drop_last()) + seq!['['] + escaped(values.last()) + seq![']']
    }
}

/// Appends `value` to `result` as it stands between its square brackets.
fn push_escaped(result: &mut String, value: &str)
    ensures
        final(result)@ == old(result)@ + escaped(value@),
{
    let chars = chars_of(value);
    let mut i: usize = 0;
    while i < chars.len()
        invariant
            i <= chars.len(),
            chars@ == value@,
            result@ == old(result)@ + escaped(value@.take(i as int)),
        decreases chars.len() - i,
    {
        let c = chars[i];
        if c == ']' || c == '\\' {
            push_char(result, '\\');
        }
        push_char(result, c);
        proof {
            assert(value@.take(i + 1).drop_last() =~= value@.take(i as int));
            assert(value@.take(i + 1).last() == c);
        }
        i += 1;
    }
    proof {
        assert(value@.take(i as int) =~= value@);
    }
}

/// The text of properties in a row: of each its name, then its values.
pub open spec fn properties_text(entries: Seq<(Seq<char>, Seq<Seq<char>>)>) -> Seq<char>
    decreases entries.len(),
{
    if entries.len() == 0 {
        Seq::empty()
    } else {
        properties_text(entries.drop_last()) + entries.last().0 + values_text(entries.last().1)
    }
}

/// The text of nodes in a row: of each a semicolon, then its properties.
pub open spec fn nodes_text(nodes: Seq<Seq<(Seq<char>, Seq<Seq<char>>)>>) -> Seq<char>
    decreases nodes.len(),
{
    if nodes.len() == 0 {
        Seq::empty()
    } else {
        nodes_text(nodes.drop_last()) + seq![';'] + properties_text(nodes.last())
    }
}

/// The text of two rows of nodes, one behind the other, is the two texts,
/// one behind the other.
pub proof fn lemma_nodes_text_concat(
    first: Seq<Seq<(Seq<char>, Seq<Seq<char>>)>>,
    second: Seq<Seq<(Seq<char>, Seq<Seq<char>>)>>,
)
    ensures
        nodes_text(first + second) == nodes_text(first) + nodes_text(second),
    decreases second.len(),
{
    if second.len() == 0 {
        assert(first + second =~= first);
        assert(nodes_text(first) + nodes_text(second) =~= nodes_text(first));
    } else {
        lemma_nodes_text_concat(first, second.drop_last());
        assert((first + second).drop_last() =~= first + second.drop_last());
        assert((first + second).last() == second.last());
        assert(nodes_text(first + second) =~= nodes_text(first) + nodes_text(second));
    }
}

/// The text of a node with one property of one value: a semicolon, the
/// name, and the value, escaped, between square brackets.
pub proof fn lemma_single_property_text(name: Seq<char>, value: Seq<char>)
    ensures
        nodes_text(seq![seq![(name, seq![value])]]) == seq![';'] + name + seq!['['] + escaped(value)
            + seq![']'],
{
    reveal_with_fuel(values_text, 2);
    reveal_with_fuel(properties_text, 2);
    reveal_with_fuel(nodes_text, 2);
    let values = seq![value];
    let entries = seq![(name, values)];
    let nodes = seq![entries];
    assert(values.drop_last() =~= Seq::<Seq<char>>::empty());
    assert(values_text(values) =~= seq!['['] + escaped(value) + seq![']']);
    assert(entries.drop_last() =~= Seq::<(Seq<char>, Seq<Seq<char>>)>::empty());
    assert(properties_text(entries) =~= name + values_text(values));
    assert(nodes.drop_last() =~= Seq::<Seq<(Seq<char>, Seq<Seq<char>>)>>::empty());
    assert(nodes_text(nodes) =~= seq![';'] + properties_text(entries));
    assert(nodes_text(nodes) =~= seq![';'] + name + seq!['['] + escaped(value) + seq![']']);
}

/// A value that has a text in SGF.
pub trait ToSgf {
    /// Whether the value has a text in SGF.
    spec fn has_sgf(&self) -> bool;

    /// The value's text in SGF.
    spec fn sgf_text(&self) -> Seq<char>;

    fn to_sgf(&self) -> (text: String)
        requires
            self.has_sgf(),
        ensures
            text@ == self.sgf_text(),
    ;
}

impl ToSgf for &str {
    open spec fn has_sgf(&self) -> bool {
        true
    }

    open spec fn sgf_text(&self) -> Seq<char> {
        self@
    }

    fn to_sgf(&self) -> (text: String) {
        String::from_str(self)
    }
}

impl ToSgf for Score {
    open spec fn has_sgf(&self) -> bool {
        true
    }

    open spec fn sgf_text(&self) -> Seq<char> {
        self.spec_text()
    }

    fn to_sgf(&self) -> (text: String) {
        self.to_string()
    }
}

impl ToSgf for LocalDate {
    open spec fn has_sgf(&self) -> bool {
        true
    }

    open spec fn sgf_text(&self) -> Seq<char> {
        self.spec_iso()
    }

    fn to_sgf(&self) -> (text: String) {
        self.iso_string()
    }
}

impl ToSgf for Handicap {
    open spec fn has_sgf(&self) -> bool {
        true
    }

    open spec fn sgf_text(&self) -> Seq<char> {
        self.spec_text()
    }

    fn to_sgf(&self) -> (text: String) {
        self.to_string()
    }
}

/// The letter of the alphabet at `index`, counted from zero.
pub open spec fn letter(index: int) -> char {
    (('a' as int) + index) as char
}

/// The two letters of a point of the board: one for each axis, `a` for zero.
pub open spec fn coordinate_text(coordinate: BoardCoordinate) -> Seq<char> {
    seq![letter(coordinate.x as int), letter(coordinate.y as int)]
}

/// The point of the board whose text is `text`.
pub open spec fn point_of(text: Seq<char>) -> BoardCoordinate {
    BoardCoordinate { x: (text[0] as int - 'a' as int) as u8, y: (text[1] as int - 'a' as int) as u8 }
}

/// Whether `c` is the letter of a line of the board, from `a` to `s`.
pub open spec fn is_line_letter(c: char) -> bool {
    'a' <= c && c <= 's'
}

/// The points of the board and the pairs of letters from `a` to `s` stand
/// for each other, one for one: the text of a point is such a pair and names
/// that point alone, and every such pair is the text of its point.
pub proof fn lemma_coordinate_text_bijective(coordinate: BoardCoordinate, x: char, y: char)
    ensures
        coordinate.on_board() ==> {
            &&& coordinate_text(coordinate).len() == 2
            &&& is_line_letter(coordinate_text(coordinate)[0])
            &&& is_line_letter(coordinate_text(coordinate)[1])
            &&& point_of(coordinate_text(coordinate)) == coordinate
        },
        is_line_letter(x) && is_line_letter(y) ==> {
            &&& point_of(seq![x, y]).on_board()
            &&& coordinate_text(point_of(seq![x, y])) == seq![x, y]
        },
{
    if is_line_letter(x) && is_line_letter(y) {
        assert(coordinate_text(point_of(seq![x, y])) =~= seq![x, y]);
    }
}

/// The text of a point of the board stands between square brackets as it
/// is: none of its letters needs a backslash.
pub proof fn lemma_coordinate_text_plain(coordinate: BoardCoordinate)
    requires
        coordinate.on_board(),
    ensures
        escaped(coordinate_text(coordinate)) == coordinate_text(coordinate),
{
    reveal_with_fuel(escaped, 3);
    let text = coordinate_text(coordinate);
    assert(text.drop_last() =~= seq![text[0]]);
    assert(text.drop_last().drop_last() =~= Seq::<char>::empty());
    assert(escaped(text.drop_last()) =~= seq![text[0]]);
    assert(escaped(text) =~= text);
}

/// Two points of the board with the same text are the same point.
pub proof fn lemma_coordinate_text_injective(first: BoardCoordinate, second: BoardCoordinate)
    requires
        first.on_board(),
        second.on_board(),
        coordinate_text(first) == coordinate_text(second),
    ensures
        first == second,
{
    lemma_coordinate_text_bijective(first, 'a', 'a');
    lemma_coordinate_text_bijective(second, 'a', 'a');
}

/// The line of the board whose letter is `c`.
fn axis_index(c: char) -> (index: u8)
    requires
        is_line_letter(c),
    ensures
        index == c as int - 'a' as int,
        index < 19,
{
    let code: u32 = c as u32;
    (code - 97) as u8
}

/// The point of the board that `text` names, if it names one: `text` is
/// then two letters from `a` to `s`.
pub fn point_from_sgf(text: &str) -> (point: Option<BoardCoordinate>)
    ensures
        point is Some <==> text@.len() == 2 && is_line_letter(text@[0]) && is_line_letter(
            text@[1],
        ),
        point matches Some(p) ==> p == point_of(text@) && p.on_board() && coordinate_text(p)
            == text@,
{
    let chars = chars_of(text);
    if chars.len() == 2 && 'a' <= chars[0] && chars[0] <= 's' && 'a' <= chars[1] && chars[1]
        <= 's' {
        let point = BoardCoordinate::new(axis_index(chars[0]), axis_index(chars[1]));
        assert(coordinate_text(point) =~= text@);
        Some(point)
    } else {
        None
    }
}

fn axis_letter(index: u8) -> (c: char)
    requires
        index < 26,
    ensures
        c == letter(index as int),
{
    (97 + index) as char
}

impl ToSgf for BoardCoordinate {
    /// Only a point of the board has a text.
    open spec fn has_sgf(&self) -> bool {
        self.on_board()
    }

    open spec fn sgf_text(&self) -> Seq<char> {
        coordinate_text(*self)
    }

    fn to_sgf(&self) -> (text: String) {
        let mut text = String::new();
        push_char(&mut text, axis_letter(self.x));
        push_char(&mut text, axis_letter(self.y));
        assert(text@ =~= coordinate_text(*self));
        text
    }
}

/// The letter by which SGF names a color.
pub open spec fn color_text(color: PlayerColor) -> Seq<char> {
    match color {
        PlayerColor::Black => seq!['B'],
        PlayerColor::White => seq!['W'],
    }
}

/// The text of a result: `0` for a draw, else the winner's letter, a plus
/// sign and the margin, `?` for an unknown margin, or the letter of the way
/// in which the game ended.
pub open spec fn result_text(result: GameResult) -> Seq<char> {
    match result {
        GameResult::Jigo => seq!['0'],
        GameResult::Count(winner, Some(score)) => color_text(winner) + seq!['+']
            + score.spec_text(),
        GameResult::Count(winner, None) => color_text(winner) + seq!['+', '?'],
        GameResult::Resign(winner) => color_text(winner) + seq!['+', 'R'],
        GameResult::Time(winner) => color_text(winner) + seq!['+', 'T'],
        GameResult::Forfeit(winner) => color_text(winner) + seq!['+', 'F'],
    }
}

impl PlayerColor {
    pub fn sgf_color(&self) -> (letter: &'static str)
        ensures
            letter@ == color_text(*self),
    {
        proof {
            reveal_strlit("B");
            reveal_strlit("W");
            assert("B"@ =~= seq!['B']);
            assert("W"@ =~= seq!['W']);
        }
        self.pick("B", "W")
    }
}

impl ToSgf for GameResult {
    open spec fn has_sgf(&self) -> bool {
        true
    }

    open spec fn sgf_text(&self) -> Seq<char> {
        result_text(*self)
    }

    fn to_sgf(&self) -> (text: String) {
        let mut text = String::new();
        match self {
            GameResult::Jigo => {
                push_char(&mut text, '0');
            },
            GameResult::Count(winner, score) => {
                text.append(winner.sgf_color());
                push_char(&mut text, '+');
                match score {
                    Some(score) => {
                        let margin = score.to_sgf();
                        text.append(margin.as_str());
                    },
                    None => {
                        push_char(&mut text, '?');
                    },
                }
            },
            GameResult::Resign(winner) => {
                text.append(winner.sgf_color());
                push_char(&mut text, '+');
                push_char(&mut text, 'R');
            },
            GameResult::Time(winner) => {
                text.append(winner.sgf_color());
                push_char(&mut text, '+');
                push_char(&mut text, 'T');
            },
            GameResult::Forfeit(winner) => {
                text.append(winner.sgf_color());
                push_char(&mut text, '+');
                push_char(&mut text, 'F');
            },
        }
        assert(text@ =~= result_text(*self));
        text
    }
}

/// Setting a property keeps the names of a node distinct.
pub proof fn lemma_with_property_distinct(
    entries: Seq<(Seq<char>, Seq<Seq<char>>)>,
    name: Seq<char>,
    values: Seq<Seq<char>>,
)
    requires
        distinct_names(entries),
    ensures
        distinct_names(with_property(entries, name, values)),
{
    let keep = named_otherwise(name);
    let kept = entries.filter(keep);
    let after = with_property(entries, name, values);
    lemma_filter_keeps_distinct(entries, name);
    assert forall|i: int, j: int| 0 <= i < j < after.len() implies (#[trigger] after[i]).0 != (
    #[trigger] after[j]).0 by {
        if j < kept.len() {
            assert(after[i] == kept[i]);
            assert(after[j] == kept[j]);
        } else {
            assert(after[i] == kept[i]);
            assert(kept.contains(kept[i]));
            entries.lemma_filter_contains_rev(keep, kept[i]);
        }
    }
}

/// Leaving out the properties of one name keeps the others in their order,
/// so that their names stay distinct.
proof fn lemma_filter_keeps_distinct(entries: Seq<(Seq<char>, Seq<Seq<char>>)>, name: Seq<char>)
    requires
        distinct_names(entries),
    ensures
        distinct_names(entries.filter(named_otherwise(name))),
    decreases entries.len(),
{
    reveal(Seq::filter);
    let keep = named_otherwise(name);
    if entries.len() > 0 {
        let front = entries.drop_last();
        assert forall|i: int, j: int| 0 <= i < j < front.len() implies (#[trigger] front[i]).0 != (
        #[trigger] front[j]).0 by {
            assert(front[i] == entries[i]);
            assert(front[j] == entries[j]);
        }
        lemma_filter_keeps_distinct(front, name);
        let kept = front.filter(keep);
        let all = entries.filter(keep);
        if keep(entries.last()) {
            assert(all == kept.push(entries.last()));
            assert forall|i: int, j: int| 0 <= i < j < all.len() implies (#[trigger] all[i]).0 != (
            #[trigger] all[j]).0 by {
                if j == kept.len() {
                    assert(kept.contains(kept[i]));
                    front.lemma_filter_contains_rev(keep, kept[i]);
                    let k = choose|k: int| 0 <= k < front.len() && front[k] == kept[i];
                    assert(entries[k] == kept[i]);
                    assert(entries[entries.len() - 1] == all[j]);
                }
            }
        } else {
            assert(all == kept);
        }
    }
}

/// A node of a game tree: properties, each a name with its values, in the
/// order in which they were set.
pub struct SgfNode {
    properties: LinkedHashMap<String, Vec<String>>,
}

impl View for SgfNode {
    type V = Seq<(Seq<char>, Seq<Seq<char>>)>;

    closed spec fn view(&self) -> Seq<(Seq<char>, Seq<Seq<char>>)> {
        entries_of(self.properties)
    }
}

impl SgfNode {
    /// A node without properties.
    pub fn new() -> (node: SgfNode)
        ensures
            node@ == Seq::<(Seq<char>, Seq<Seq<char>>)>::empty(),
    {
        SgfNode { properties: new_properties() }
    }

    /// The node of a move: the color's letter as the name, the point as the
    /// one value.
    pub fn new_move(color: PlayerColor, coordinate: BoardCoordinate) -> (node: SgfNode)
        requires
            coordinate.on_board(),
        ensures
            node@ == seq![(color_text(color), seq![coordinate_text(coordinate)])],
    {
        let mut node = SgfNode::new();
        node.set_property(color.sgf_color(), coordinate);
        assert(node@ =~= seq![(color_text(color), seq![coordinate_text(coordinate)])]) by {
            reveal(Seq::filter);
        }
        node
    }

    /// The node of a pass: the color's letter as the name, the empty text as
    /// the one value.
    pub fn new_pass(color: PlayerColor) -> (node: SgfNode)
        ensures
            node@ == seq![(color_text(color), seq![Seq::<char>::empty()])],
    {
        let mut node = SgfNode::new();
        node.set_property(color.sgf_color(), "");
        proof {
            reveal_strlit("");
            reveal(Seq::filter);
            assert(""@ =~= Seq::<char>::empty());
            assert(node@ =~= seq![(color_text(color), seq![Seq::<char>::empty()])]);
        }
        node
    }

    fn put(&mut self, name: &str, values: Vec<String>)
        ensures
            final(self)@ == with_property(old(self)@, name@, texts_of(values@)),
            distinct_names(old(self)@) ==> distinct_names(final(self)@),
    {
        proof {
            if distinct_names(self@) {
                lemma_with_property_distinct(self@, name@, texts_of(values@));
            }
        }
        insert_property(&mut self.properties, String::from_str(name), values);
    }

    /// Sets the property `name` to the one value `value`. An earlier
    /// property of that name is replaced, and the property stands last.
    pub fn set_property(&mut self, name: &str, value: impl ToSgf)
        requires
            value.has_sgf(),
        ensures
            final(self)@ == with_property(old(self)@, name@, seq![value.sgf_text()]),
            distinct_names(old(self)@) ==> distinct_names(final(self)@),
    {
        let mut values: Vec<String> = Vec::new();
        values.push(value.to_sgf());
        assert(texts_of(values@) =~= seq![value.sgf_text()]);
        self.put(name, values);
    }

    /// Sets the property `name` to the values `values`, in their order. An
    /// earlier property of that name is replaced, and the property stands
    /// last.
    pub fn set_property_list<T: ToSgf>(&mut self, name: &str, values: Vec<T>)
        requires
            forall|i: int| 0 <= i < values.len() ==> (#[trigger] values[i]).has_sgf(),
        ensures
            final(self)@ == with_property(
                old(self)@,
                name@,
                Seq::new(values.len() as nat, |i: int| values[i].sgf_text()),
            ),
            distinct_names(old(self)@) ==> distinct_names(final(self)@),
    {
        let mut texts: Vec<String> = Vec::new();
        let mut i: usize = 0;
        while i < values.len()
            invariant
                i <= values.len(),
                texts.len() == i,
                forall|k: int| 0 <= k < values.len() ==> (#[trigger] values[k]).has_sgf(),
                forall|k: int| 0 <= k < i ==> (#[trigger] texts[k])@ == values[k].sgf_text(),
            decreases values.len() - i,
        {
            texts.push(values[i].to_sgf());
            i += 1;
        }
        assert(texts_of(texts@) =~= Seq::new(values.len() as nat, |i: int| values[i].sgf_text()));
        self.put(name, texts);
    }

    /// Sets the property `name` to `value`, if there is one.
    pub fn set_property_maybe<T: ToSgf>(&mut self, name: &str, value: Option<T>)
        requires
            value matches Some(v) ==> v.has_sgf(),
        ensures
            final(self)@ == match value {
                Some(v) => with_property(old(self)@, name@, seq![v.sgf_text()]),
                None => old(self)@,
            },
            distinct_names(old(self)@) ==> distinct_names(final(self)@),
    {
        match value {
            Some(v) => {
                self.set_property(name, v);
            },
            None => {},
        }
    }

    /// Appends the node's text to `result`: a semicolon, then the properties.
    fn write_sgf(&self, result: &mut String)
        ensures
            final(result)@ == old(result)@ + seq![';'] + properties_text(self@),
    {
        push_char(result, ';');
        let entries = properties_in_order(&self.properties);
        let ghost start = result@;
        let mut i: usize = 0;
        while i < entries.len()
            invariant
                i <= entries.len(),
                entries@.len() == self@.len(),
                forall|k: int|
                    0 <= k < entries@.len() ==> {
                        &&& (#[trigger] entries@[k]).0@ == self@[k].0
                        &&& texts_of(entries@[k].1@) == self@[k].1
                    },
                result@ == start + properties_text(self@.take(i as int)),
            decreases entries.len() - i,
        {
            let (name, values) = entries[i];
            result.append(name.as_str());
            let ghost named = result@;
            let mut j: usize = 0;
            while j < values.len()
                invariant
                    j <= values.len(),
                    result@ == named + values_text(texts_of(values@).take(j as int)),
                decreases values.len() - j,
            {
                push_char(result, '[');
                push_escaped(result, values[j].as_str());
                push_char(result, ']');
                proof {
                    let texts = texts_of(values@);
                    assert(texts.take(j + 1).drop_last() =~= texts.take(j as int));
                    assert(texts.take(j + 1).last() == values@[j as int]@);
                }
                j += 1;
            }
            proof {
                assert(texts_of(values@).take(j as int) =~= texts_of(values@));
                assert(self@.take(i + 1).drop_last() =~= self@.take(i as int));
                assert(self@.take(i + 1).last() == self@[i as int]);
            }
            i += 1;
        }
        assert(self@.take(i as int) =~= self@);
    }
}

/// What a game tree holds: its nodes in their order, then its child trees.
pub struct SgfTreeView {
    pub nodes: Seq<Seq<(Seq<char>, Seq<Seq<char>>)>>,
    pub children: Seq<SgfTreeView>,
}

/// The text of a tree: between round brackets its nodes, then its child
/// trees.
pub open spec fn tree_text(tree: SgfTreeView) -> Seq<char>
    decreases tree,
{
    seq!['('] + nodes_text(tree.nodes) + trees_text(tree.children) + seq![')']
}

/// The text of trees in a row, with nothing between them.
pub open spec fn trees_text(trees: Seq<SgfTreeView>) -> Seq<char>
    decreases trees,
{
    if trees.len() == 0 {
        Seq::empty()
    } else {
        trees_text(trees.drop_last()) + tree_text(trees.last())
    }
}

/// What each of `nodes` holds.
pub open spec fn node_views(nodes: Seq<SgfNode>) -> Seq<Seq<(Seq<char>, Seq<Seq<char>>)>> {
    nodes.map_values(|node: SgfNode| node@)
}

/// What each of `trees` holds.
pub open spec fn tree_views(trees: Seq<SgfTree>) -> Seq<SgfTreeView>
    decreases trees,
{
    if trees.len() == 0 {
        Seq::empty()
    } else {
        tree_views(trees.drop_last()).push(trees.last()@)
    }
}

/// One more tree adds what it holds behind the others.
pub proof fn lemma_tree_views_push(trees: Seq<SgfTree>, tree: SgfTree)
    ensures
        tree_views(trees.push(tree)) == tree_views(trees).push(tree@),
{
    assert(trees.push(tree).drop_last() =~= trees);
}

/// One more tree adds its text behind the others.
pub proof fn lemma_trees_text_push(trees: Seq<SgfTreeView>, tree: SgfTreeView)
    ensures
        trees_text(trees.push(tree)) == trees_text(trees) + tree_text(tree),
{
    assert(trees.push(tree).drop_last() =~= trees);
}

/// A game tree: nodes in a row, then the trees that branch off behind them.
pub struct SgfTree {
    nodes: Vec<SgfNode>,
    children: Vec<SgfTree>,
}

impl View for SgfTree {
    type V = SgfTreeView;

    closed spec fn view(&self) -> SgfTreeView
        decreases self,
    {
        SgfTreeView { nodes: node_views(self.nodes@), children: tree_views(self.children@) }
    }
}

impl SgfTree {
    /// A tree without nodes and without children.
    pub fn new() -> (tree: SgfTree)
        ensures
            tree@.nodes.len() == 0,
            tree@.children.len() == 0,
    {
        SgfTree { nodes: Vec::new(), children: Vec::new() }
    }

    /// Appends `node` to the nodes of the tree.
    pub fn add_node(&mut self, node: SgfNode)
        ensures
            final(self)@.nodes == old(self)@.nodes.push(node@),
            final(self)@.children == old(self)@.children,
    {
        self.nodes.push(node);
        assert(node_views(self.nodes@) =~= node_views(old(self).nodes@).push(node@));
    }

    /// Appends the node of a move to the nodes of the tree.
    pub fn add_move(&mut self, color: PlayerColor, coordinate: BoardCoordinate)
        requires
            coordinate.on_board(),
        ensures
            final(self)@.nodes == old(self)@.nodes.push(
                seq![(color_text(color), seq![coordinate_text(coordinate)])],
            ),
            final(self)@.children == old(self)@.children,
    {
        self.add_node(SgfNode::new_move(color, coordinate));
    }

    /// Appends the node of a pass to the nodes of the tree.
    pub fn add_pass(&mut self, color: PlayerColor)
        ensures
            final(self)@.nodes == old(self)@.nodes.push(
                seq![(color_text(color), seq![Seq::<char>::empty()])],
            ),
            final(self)@.children == old(self)@.children,
    {
        self.add_node(SgfNode::new_pass(color));
    }

    /// Appends `tree` to the children of the tree.
    pub fn add_child(&mut self, tree: SgfTree)
        ensures
            final(self)@.nodes == old(self)@.nodes,
            final(self)@.children == old(self)@.children.push(tree@),
    {
        self.children.push(tree);
        proof {
            lemma_tree_views_push(old(self).children@, tree);
        }
    }

    /// Appends the tree's text to `result`.
    fn write_sgf(&self, result: &mut String)
        ensures
            final(result)@ == old(result)@ + tree_text(self@),
        decreases self,
    {
        push_char(result, '(');
        let ghost start = result@;
        let mut i: usize = 0;
        while i < self.nodes.len()
            invariant
                i <= self.nodes.len(),
                result@ == start + nodes_text(node_views(self.nodes@).take(i as int)),
            decreases self.nodes.len() - i,
        {
            self.nodes[i].write_sgf(result);
            proof {
                let views = node_views(self.nodes@);
                assert(views.take(i + 1).drop_last() =~= views.take(i as int));
                assert(views.take(i + 1).last() == self.nodes@[i as int]@);
            }
            i += 1;
        }
        assert(node_views(self.nodes@).take(i as int) =~= node_views(self.nodes@));
        let ghost middle = result@;
        let mut j: usize = 0;
        while j < self.children.len()
            invariant
                j <= self.children.len(),
                result@ == middle + trees_text(tree_views(self.children@.take(j as int))),
            decreases self.children.len() - j,
        {
            self.children[j].write_sgf(result);
            proof {
                let children = self.children@;
                assert(children.take(j + 1) =~= children.take(j as int).push(children[j as int]));
                lemma_tree_views_push(children.take(j as int), children[j as int]);
                lemma_trees_text_push(tree_views(children.take(j as int)), children[j as int]@);
            }
            j += 1;
        }
        assert(self.children@.take(j as int) =~= self.children@);
        push_char(result, ')');
    }
}

/// The text of a collection depends on nothing but what the collection
/// holds: two renderings of one collection are the same text, character for
/// character.
pub proof fn lemma_rendering_repeats(collection: SgfCollection, first: String, second: String)
    requires
        first@ == trees_text(collection@),
        second@ == trees_text(collection@),
    ensures
        first@ == second@,
{
}

/// Game trees in a row.
pub struct SgfCollection {
    trees: Vec<SgfTree>,
}

impl View for SgfCollection {
    type V = Seq<SgfTreeView>;

    closed spec fn view(&self) -> Seq<SgfTreeView> {
        tree_views(self.trees@)
    }
}

impl SgfCollection {
    /// The collection of the one tree `tree`.
    pub fn from_game(tree: SgfTree) -> (collection: SgfCollection)
        ensures
            collection@ == seq![tree@],
    {
        let mut trees: Vec<SgfTree> = Vec::new();
        trees.push(tree);
        proof {
            lemma_tree_views_push(Seq::<SgfTree>::empty(), tree);
            assert(trees@ =~= Seq::<SgfTree>::empty().push(tree));
            assert(tree_views(trees@) =~= seq![tree@]);
        }
        SgfCollection { trees }
    }

    /// The text of the collection: the texts of its trees in a row.
    pub fn to_sgf(&self) -> (text: String)
        ensures
            text@ == trees_text(self@),
    {
        let mut result = String::new();
        let mut i: usize = 0;
        while i < self.trees.len()
            invariant
                i <= self.trees.len(),
                result@ == trees_text(tree_views(self.trees@.take(i as int))),
            decreases self.trees.len() - i,
        {
            self.trees[i].write_sgf(&mut result);
            proof {
                let trees = self.trees@;
                assert(trees.take(i + 1) =~= trees.take(i as int).push(trees[i as int]));
                lemma_tree_views_push(trees.take(i as int), trees[i as int]);
                lemma_trees_text_push(tree_views(trees.take(i as int)), trees[i as int]@);
            }
            i += 1;
        }
        assert(self.trees@.take(i as int) =~= self.trees@);
        result
    }
}

} // verus!
