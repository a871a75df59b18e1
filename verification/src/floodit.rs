//! The flood-it game: a 10 by 10 board of coloured tiles. Each turn the
//! player picks a colour; the region of tiles connected to the top-left tile
//! through tiles of its colour is repainted in the picked colour. The game is
//! won when the whole board has one colour.

use vstd::prelude::*;
use crate::chance::random_below;
use crate::graph::{
    has_edge,
    is_walk,
    lemma_walk_push,
    lemma_walk_single,
    reachable_from,
    reached_from,
    reaches,
    well_formed,
};
use crate::text::str_eq;

verus! {

/// Side length of the square board.
pub const SIDE: usize = 10;

/// Number of tiles on the board.
pub const TILES: usize = 100;

/// The colours a tile can have.
#[derive(Clone, Copy, Debug, PartialEq, Eq, Structural)]
pub enum Colour {
    Red,
    Green,
    Blue,
    Purple,
    White,
    Yellow,
}

/// The lower-case name by which a colour is shown and entered.
pub open spec fn colour_name(c: Colour) -> Seq<char> {
    match c {
        Colour::Red => "red"@,
        Colour::Green => "green"@,
        Colour::Blue => "blue"@,
        Colour::Purple => "purple"@,
        Colour::White => "white"@,
        Colour::Yellow => "yellow"@,
    }
}

/// The colour drawn for a roll of a die with faces `0..=6`: the last two
/// faces both give yellow.
pub open spec fn colour_of_roll(n: u8) -> Colour {
    if n == 0 {
        Colour::Red
    } else if n == 1 {
        Colour::Green
    } else if n == 2 {
        Colour::Blue
    } else if n == 3 {
        Colour::Purple
    } else if n == 4 {
        Colour::White
    } else {
        Colour::Yellow
    }
}

/// The entered text names no colour.
#[derive(Debug, PartialEq, Eq, Structural)]
pub struct InvalidColourError;

impl Colour {
    /// The colour's name.
    pub fn name(&self) -> (r: &'static str)
        ensures
            r@ == colour_name(*self),
    {
        match self {
            Colour::Red => "red",
            Colour::Green => "green",
            Colour::Blue => "blue",
            Colour::Purple => "purple",
            Colour::White => "white",
            Colour::Yellow => "yellow",
        }
    }

    /// Reads a colour from its name.
    pub fn from_name(s: &str) -> (r: Result<Colour, InvalidColourError>)
        ensures
            match r {
                Ok(c) => s@ == colour_name(c),
                Err(_) => forall|c: Colour| s@ != #[trigger] colour_name(c),
            },
    {
        if str_eq(s, "red") {
            Ok(Colour::Red)
        } else if str_eq(s, "green") {
            Ok(Colour::Green)
        } else if str_eq(s, "blue") {
            Ok(Colour::Blue)
        } else if str_eq(s, "purple") {
            Ok(Colour::Purple)
        } else if str_eq(s, "white") {
            Ok(Colour::White)
        } else if str_eq(s, "yellow") {
            Ok(Colour::Yellow)
        } else {
            proof {
                assert forall|c: Colour| s@ != #[trigger] colour_name(c) by {
                    match c {
                        Colour::Red => {},
                        Colour::Green => {},
                        Colour::Blue => {},
                        Colour::Purple => {},
                        Colour::White => {},
                        Colour::Yellow => {},
                    }
                }
            }
            Err(InvalidColourError)
        }
    }

    /// The colour for a roll of a die with faces `0..=6`.
    pub fn from_roll(n: u8) -> (c: Colour)
        ensures
            c == colour_of_roll(n),
    {
        if n == 0 {
            Colour::Red
        } else if n == 1 {
            Colour::Green
        } else if n == 2 {
            Colour::Blue
        } else if n == 3 {
            Colour::Purple
        } else if n == 4 {
            Colour::White
        } else {
            Colour::Yellow
        }
    }

    /// All colours, in the order in which they are offered.
    pub fn all() -> (v: Vec<Colour>)
        ensures
            v@ == seq![
                Colour::Red,
                Colour::Green,
                Colour::Blue,
                Colour::Purple,
                Colour::White,
                Colour::Yellow,
            ],
    {
        let mut v = Vec::new();
        v.push(Colour::Red);
        v.push(Colour::Green);
        v.push(Colour::Blue);
        v.push(Colour::Purple);
        v.push(Colour::White);
        v.push(Colour::Yellow);
        v
    }
}

/// The text asking the player for a colour.
pub open spec fn prompt_text() -> Seq<char> {
    "please enter "@ + "red"@ + ", "@ + "green"@ + ", "@ + "blue"@ + ", "@ + "purple"@ + ", "@
        + "white"@ + " or "@ + "yellow"@
}

/// The prompt listing every colour but the last separated by commas, and
/// the last after "or".
pub fn prompt_string() -> (r: String)
    ensures
        r@ == prompt_text(),
{
    let colours = Colour::all();
    let mut r = String::from_str("please enter ");
    let mut i: usize = 0;
    while i + 1 < colours.len()
        invariant
            colours@ == seq![
                Colour::Red,
                Colour::Green,
                Colour::Blue,
                Colour::Purple,
                Colour::White,
                Colour::Yellow,
            ],
            i <= 5,
            i == 0 ==> r@ == "please enter "@,
            i == 1 ==> r@ == "please enter "@ + "red"@,
            i == 2 ==> r@ == "please enter "@ + "red"@ + ", "@ + "green"@,
            i == 3 ==> r@ == "please enter "@ + "red"@ + ", "@ + "green"@ + ", "@ + "blue"@,
            i == 4 ==> r@ == "please enter "@ + "red"@ + ", "@ + "green"@ + ", "@ + "blue"@ + ", "@
                + "purple"@,
            i == 5 ==> r@ == "please enter "@ + "red"@ + ", "@ + "green"@ + ", "@ + "blue"@ + ", "@
                + "purple"@ + ", "@ + "white"@,
        decreases 5 - i,
    {
        if i > 0 {
            r.append(", ");
        }
        r.append(colours[i].name());
        i = i + 1;
    }
    r.append(" or ");
    r.append(colours[colours.len() - 1].name());
    r
}

/// Row-major position of a tile.
pub open spec fn tile(row: int, col: int) -> int {
    row * 10 + col
}

/// The tiles next to tile `i` (above, below, left, right, in that order)
/// that have its colour.
pub open spec fn same_colour_neighbours(b: Seq<Colour>, i: int) -> Seq<usize> {
    let r: int = i / 10;
    let c: int = i % 10;
    let s1 = if r > 0 && b[i - 10] == b[i] {
        Seq::<usize>::empty().push((i - 10) as usize)
    } else {
        Seq::<usize>::empty()
    };
    let s2 = if r < 9 && b[i + 10] == b[i] {
        s1.push((i + 10) as usize)
    } else {
        s1
    };
    let s3 = if c > 0 && b[i - 1] == b[i] {
        s2.push((i - 1) as usize)
    } else {
        s2
    };
    if c < 9 && b[i + 1] == b[i] {
        s3.push((i + 1) as usize)
    } else {
        s3
    }
}

/// The graph in which each tile is joined to its same-coloured neighbours.
pub open spec fn flood_graph(b: Seq<Colour>) -> Seq<Seq<usize>> {
    Seq::new(100, |i: int| same_colour_neighbours(b, i))
}

/// Tile `i` is connected to the top-left tile through tiles of one colour.
pub open spec fn in_flood_region(b: Seq<Colour>, i: int) -> bool {
    reaches(flood_graph(b), 0, i as usize)
}

/// The board after painting the flood region of `b` with colour `c`.
pub open spec fn flooded(b: Seq<Colour>, c: Colour) -> Seq<Colour> {
    Seq::new(
        b.len(),
        |i: int|
            if in_flood_region(b, i) {
                c
            } else {
                b[i]
            },
    )
}

/// A tile joined to another in the flood graph has its colour.
proof fn lemma_neighbour_same_colour(b: Seq<Colour>, u: int, v: usize)
    requires
        0 <= u < 100,
        same_colour_neighbours(b, u).contains(v),
    ensures
        b[v as int] == b[u],
{
    let k = choose|k: int| 0 <= k < same_colour_neighbours(b, u).len() && same_colour_neighbours(
        b,
        u,
    )[k] == v;
    let r: int = u / 10;
    let c: int = u % 10;
    let s0 = Seq::<usize>::empty();
    let s1 = if r > 0 && b[u - 10] == b[u] {
        s0.push((u - 10) as usize)
    } else {
        s0
    };
    let s2 = if r < 9 && b[u + 10] == b[u] {
        s1.push((u + 10) as usize)
    } else {
        s1
    };
    let s3 = if c > 0 && b[u - 1] == b[u] {
        s2.push((u - 1) as usize)
    } else {
        s2
    };
    assert(forall|j: int| 0 <= j < s1.len() ==> b[#[trigger] s1[j] as int] == b[u]);
    assert(forall|j: int| 0 <= j < s2.len() ==> b[#[trigger] s2[j] as int] == b[u]);
    assert(forall|j: int| 0 <= j < s3.len() ==> b[#[trigger] s3[j] as int] == b[u]);
}

/// Every tile of a walk from the top-left tile in the flood graph has the
/// top-left tile's colour.
proof fn lemma_walk_one_colour(b: Seq<Colour>, p: Seq<usize>, k: int)
    requires
        b.len() == 100,
        is_walk(flood_graph(b), p),
        p[0] == 0,
        0 <= k < p.len(),
    ensures
        b[p[k] as int] == b[0],
    decreases k,
{
    if k > 0 {
        lemma_walk_one_colour(b, p, k - 1);
        assert(has_edge(flood_graph(b), p[k - 1], p[k]));
        lemma_neighbour_same_colour(b, p[k - 1] as int, p[k]);
    }
}

/// The flood region has one colour: the top-left tile's.
pub proof fn lemma_flood_region_one_colour(b: Seq<Colour>, i: int)
    requires
        b.len() == 100,
        0 <= i < 100,
        in_flood_region(b, i),
    ensures
        b[i] == b[0],
{
    let p = choose|p: Seq<usize>| #[trigger] is_walk(flood_graph(b), p) && p[0] == 0 && p.last() == i as usize;
    lemma_walk_one_colour(b, p, p.len() - 1);
}

/// Flooding always paints the top-left tile.
pub proof fn lemma_flood_paints_top_left(b: Seq<Colour>, c: Colour)
    requires
        b.len() == 100,
    ensures
        flooded(b, c)[0] == c,
{
    lemma_walk_single(flood_graph(b), 0);
}

/// Flooding with the colour the top-left tile already has changes nothing.
pub proof fn lemma_flood_same_colour_unchanged(b: Seq<Colour>)
    requires
        b.len() == 100,
    ensures
        flooded(b, b[0]) == b,
{
    assert forall|i: int| 0 <= i < 100 implies #[trigger] flooded(b, b[0])[i] == b[i] by {
        if in_flood_region(b, i) {
            lemma_flood_region_one_colour(b, i);
        }
    }
    assert(flooded(b, b[0]) =~= b);
}

/// Picking the same colour twice in a row: the second turn changes
/// nothing.
pub proof fn lemma_flood_twice(b: Seq<Colour>, c: Colour)
    requires
        b.len() == 100,
    ensures
        flooded(flooded(b, c), c) == flooded(b, c),
{
    lemma_flood_paints_top_left(b, c);
    lemma_flood_same_colour_unchanged(flooded(b, c));
}

/// Tiles `i` and `j` of the 10 by 10 board are side by side in a row or
/// one above the other in a column.
pub open spec fn grid_adjacent(i: int, j: int) -> bool {
    &&& 0 <= i < 100
    &&& 0 <= j < 100
    &&& ((i / 10 == j / 10 && (i % 10 == j % 10 + 1 || j % 10 == i % 10 + 1)) || (i % 10 == j % 10
        && (i / 10 == j / 10 + 1 || j / 10 == i / 10 + 1)))
}

/// A sequence with one more item holds exactly what it held and the item.
proof fn lemma_push_contains(s: Seq<usize>, y: usize, x: usize)
    ensures
        s.push(y).contains(x) <==> (s.contains(x) || x == y),
{
    if s.push(y).contains(x) {
        let k = choose|k: int| 0 <= k < s.push(y).len() && s.push(y)[k] == x;
        if k < s.len() {
            assert(s[k] == x);
        }
    }
    if s.contains(x) {
        let k = choose|k: int| 0 <= k < s.len() && s[k] == x;
        assert(s.push(y)[k] == x);
    }
    assert(s.push(y)[s.len() as int] == y);
}

/// The flood graph joins two tiles exactly when they are side by side or
/// one above the other and have one colour; so it joins them both ways.
pub proof fn lemma_flood_edges(b: Seq<Colour>, i: int, j: int)
    requires
        b.len() == 100,
        0 <= i < 100,
        0 <= j < 100,
    ensures
        has_edge(flood_graph(b), i as usize, j as usize) <==> (grid_adjacent(i, j) && b[i] == b[j]),
        has_edge(flood_graph(b), i as usize, j as usize) <==> has_edge(
            flood_graph(b),
            j as usize,
            i as usize,
        ),
{
    lemma_flood_edges_one_way(b, i, j);
    lemma_flood_edges_one_way(b, j, i);
}

proof fn lemma_flood_edges_one_way(b: Seq<Colour>, i: int, j: int)
    requires
        b.len() == 100,
        0 <= i < 100,
        0 <= j < 100,
    ensures
        has_edge(flood_graph(b), i as usize, j as usize) <==> (grid_adjacent(i, j) && b[i] == b[j]),
{
    let r: int = i / 10;
    let c: int = i % 10;
    let x = j as usize;
    let s0 = Seq::<usize>::empty();
    let s1 = if r > 0 && b[i - 10] == b[i] {
        s0.push((i - 10) as usize)
    } else {
        s0
    };
    let s2 = if r < 9 && b[i + 10] == b[i] {
        s1.push((i + 10) as usize)
    } else {
        s1
    };
    let s3 = if c > 0 && b[i - 1] == b[i] {
        s2.push((i - 1) as usize)
    } else {
        s2
    };
    let s4 = if c < 9 && b[i + 1] == b[i] {
        s3.push((i + 1) as usize)
    } else {
        s3
    };
    assert(s4 == same_colour_neighbours(b, i));
    assert(flood_graph(b)[i] == s4);
    lemma_push_contains(s0, (i - 10) as usize, x);
    lemma_push_contains(s1, (i + 10) as usize, x);
    lemma_push_contains(s2, (i - 1) as usize, x);
    lemma_push_contains(s3, (i + 1) as usize, x);
    assert(!s0.contains(x));
    let up = r > 0 && b[i - 10] == b[i] && j == i - 10;
    let down = r < 9 && b[i + 10] == b[i] && j == i + 10;
    let left = c > 0 && b[i - 1] == b[i] && j == i - 1;
    let right = c < 9 && b[i + 1] == b[i] && j == i + 1;
    assert(s4.contains(x) <==> (up || down || left || right));
    assert(i == r * 10 + c && 0 <= c < 10);
    assert(j == (j / 10) * 10 + j % 10 && 0 <= j % 10 < 10);
}

/// The flood region is closed under the flood rule: a tile side by side
/// with, or above or below, a tile of the region, and of the same colour,
/// is in the region too.
pub proof fn lemma_flood_region_closed(b: Seq<Colour>, i: int, j: int)
    requires
        b.len() == 100,
        in_flood_region(b, i),
        grid_adjacent(i, j),
        b[i] == b[j],
    ensures
        in_flood_region(b, j),
{
    lemma_flood_edges(b, i, j);
    let p = choose|p: Seq<usize>| #[trigger] is_walk(flood_graph(b), p) && p[0] == 0 && p.last() == i as usize;
    lemma_walk_push(flood_graph(b), p, j as usize);
}

/// The names of the colours, and the ANSI background code each is painted
/// with: red 41, green 42, yellow 43, blue 44, purple 45, white 47.
pub proof fn lemma_colour_names()
    ensures
        colour_name(Colour::Red) == "red"@ && background_digit(Colour::Red) == '1',
        colour_name(Colour::Green) == "green"@ && background_digit(Colour::Green) == '2',
        colour_name(Colour::Blue) == "blue"@ && background_digit(Colour::Blue) == '4',
        colour_name(Colour::Purple) == "purple"@ && background_digit(Colour::Purple) == '5',
        colour_name(Colour::White) == "white"@ && background_digit(Colour::White) == '7',
        colour_name(Colour::Yellow) == "yellow"@ && background_digit(Colour::Yellow) == '3',
        forall|c: Colour| #[trigger] colour_name(c) == "purple"@ <==> c == Colour::Purple,
        forall|c: Colour| #[trigger] colour_name(c) == "white"@ <==> c == Colour::White,
{
    reveal_strlit("red");
    reveal_strlit("green");
    reveal_strlit("blue");
    reveal_strlit("purple");
    reveal_strlit("white");
    reveal_strlit("yellow");
    assert("purple"@.len() == 6 && "yellow"@.len() == 6 && "white"@.len() == 5);
    assert("red"@.len() == 3 && "green"@.len() == 5 && "blue"@.len() == 4);
    assert("purple"@[0] != "yellow"@[0]);
    assert("white"@[0] != "green"@[0]);
}

/// All tiles of the board have one colour.
pub open spec fn one_colour(b: Seq<Colour>) -> bool {
    forall|i: int| 0 <= i < b.len() ==> #[trigger] b[i] == b[0]
}

/// The digit of the ANSI background code of a colour (`4` and this digit).
pub open spec fn background_digit(colour: Colour) -> char {
    match colour {
        Colour::Red => '1',
        Colour::Green => '2',
        Colour::Yellow => '3',
        Colour::Blue => '4',
        Colour::Purple => '5',
        Colour::White => '7',
    }
}

/// The escape code that sets the colour as background.
pub open spec fn background_code(colour: Colour) -> Seq<char> {
    seq!['\u{1b}', '[', '4', background_digit(colour), 'm']
}

/// The escape code that resets all styles.
pub open spec fn reset_code() -> Seq<char> {
    seq!['\u{1b}', '[', '0', 'm']
}

/// The text of a tile: two spaces between the escape code that sets the
/// tile's colour as background and the escape code that resets all styles.
pub open spec fn painted_tile_text(colour: Colour) -> Seq<char> {
    background_code(colour) + seq![' ', ' '] + reset_code()
}

/// `text` painted with the colour as background, by `ansi_term`'s
/// `Style::paint` on a style whose only setting is that background, shown
/// as text. Claimed: the background's escape code (what `write_prefix` and
/// `write_background_code` write), the text, then the reset code (what
/// `write_suffix` writes, `RESET`). A style with a background is never
/// plain, so both codes are written whatever the text.
#[verifier::external_body]
fn paint_background(colour: Colour, text: &str) -> (r: String)
    ensures
        r@ == background_code(colour) + text@ + reset_code(),
{
    let mut style = ansi_term::Style::new();
    style.background = Some(match colour {
        Colour::Red => ansi_term::Colour::Red,
        Colour::Green => ansi_term::Colour::Green,
        Colour::Blue => ansi_term::Colour::Blue,
        Colour::Purple => ansi_term::Colour::Purple,
        Colour::White => ansi_term::Colour::White,
        Colour::Yellow => ansi_term::Colour::Yellow,
    });
    style.paint(text).to_string()
}

/// A tile: two spaces painted with its colour as background.
fn painted_tile(colour: Colour) -> (r: String)
    ensures
        r@ == painted_tile_text(colour),
{
    proof {
        reveal_strlit("  ");
    }
    let r: String = paint_background(colour, "  ");
    assert(r@ =~= painted_tile_text(colour));
    r
}

/// The character of a decimal digit.
pub open spec fn digit_char(d: nat) -> char {
    (48 + d) as char
}

/// The decimal digits of `n`, without leading zeros.
pub open spec fn number_text(n: nat) -> Seq<char>
    decreases n,
{
    if n < 10 {
        seq![digit_char(n)]
    } else {
        number_text(n / 10).push(digit_char(n % 10))
    }
}

/// The first `i` painted tiles, a line break after every tenth.
pub open spec fn tiles_text(painted: Seq<Seq<char>>, i: int) -> Seq<char>
    decreases i,
{
    if i <= 0 {
        seq![]
    } else {
        tiles_text(painted, i - 1) + painted[i - 1] + if i % 10 == 0 {
            "\n"@
        } else {
            seq![]
        }
    }
}

/// The text of a board: the number of turns, then its rows of painted
/// tiles, one per line.
pub open spec fn board_text(turns: nat, painted: Seq<Seq<char>>) -> Seq<char> {
    "turns: "@ + number_text(turns) + "\n"@ + tiles_text(painted, 100)
}

/// A decimal digit as text.
fn digit_str(d: usize) -> (r: &'static str)
    requires
        d < 10,
    ensures
        r@ == seq![digit_char(d as nat)],
{
    proof {
        reveal_strlit("0");
        reveal_strlit("1");
        reveal_strlit("2");
        reveal_strlit("3");
        reveal_strlit("4");
        reveal_strlit("5");
        reveal_strlit("6");
        reveal_strlit("7");
        reveal_strlit("8");
        reveal_strlit("9");
    }
    let r: &'static str = if d == 0 {
        "0"
    } else if d == 1 {
        "1"
    } else if d == 2 {
        "2"
    } else if d == 3 {
        "3"
    } else if d == 4 {
        "4"
    } else if d == 5 {
        "5"
    } else if d == 6 {
        "6"
    } else if d == 7 {
        "7"
    } else if d == 8 {
        "8"
    } else {
        "9"
    };
    assert(r@ =~= seq![digit_char(d as nat)]);
    r
}

/// Appends `n` in decimal.
fn push_number(out: &mut String, n: usize)
    ensures
        final(out)@ == old(out)@ + number_text(n as nat),
    decreases n,
{
    if n >= 10 {
        push_number(out, n / 10);
    }
    out.append(digit_str(n % 10));
    proof {
        if n >= 10 {
            assert(number_text(n as nat) == number_text((n / 10) as nat).push(digit_char((n % 10) as nat)));
        }
        assert(final(out)@ =~= old(out)@ + number_text(n as nat));
    }
}

/// The text of a board from its number of turns and its 100 tiles already
/// painted, row by row.
pub fn board_string(turns: usize, painted: &Vec<String>) -> (r: String)
    requires
        painted.len() == 100,
    ensures
        r@ == board_text(turns as nat, painted@.map_values(|t: String| t@)),
{
    let ghost texts = painted@.map_values(|t: String| t@);
    let mut r = String::from_str("turns: ");
    push_number(&mut r, turns);
    r.append("\n");
    let ghost head = r@;
    let mut i: usize = 0;
    while i < 100
        invariant
            i <= 100,
            painted.len() == 100,
            texts == painted@.map_values(|t: String| t@),
            r@ == head + tiles_text(texts, i as int),
        decreases 100 - i,
    {
        r.append(painted[i].as_str());
        if (i + 1) % 10 == 0 {
            r.append("\n");
        }
        proof {
            assert(texts[i as int] == painted@[i as int]@);
            assert(r@ =~= head + tiles_text(texts, i + 1));
        }
        i = i + 1;
    }
    r
}

/// A game in progress: the tiles, row by row, and the number of turns taken.
pub struct Game {
    board: Vec<Colour>,
    turns: usize,
}

impl Game {
    #[verifier::type_invariant]
    spec fn board_is_square(&self) -> bool {
        self.board.len() == 100
    }

    /// The tiles, row by row.
    pub closed spec fn tiles(&self) -> Seq<Colour> {
        self.board@
    }

    /// The number of turns taken.
    pub closed spec fn turns_taken(&self) -> nat {
        self.turns as nat
    }

    /// A new game with tiles of random colours and no turns taken: one roll
    /// of a die with faces `0..=6` per tile, turned into a colour.
    pub fn new() -> (g: Game)
        ensures
            g.turns_taken() == 0,
            exists|rolls: Seq<u8>|
                rolls.len() == 100 && (forall|i: int| 0 <= i < 100 ==> #[trigger] rolls[i] < 7)
                    && g.tiles() == rolls.map_values(|n: u8| colour_of_roll(n)),
    {
        let mut rolls: Vec<u8> = Vec::new();
        let mut i: usize = 0;
        while i < TILES
            invariant
                rolls.len() == i,
                i <= 100,
                forall|k: int| 0 <= k < i ==> #[trigger] rolls@[k] < 7,
            decreases 100 - i,
        {
            let roll: u8 = random_below(7);
            rolls.push(roll);
            i = i + 1;
        }
        Game::from_rolls(rolls.as_slice())
    }

    /// The game whose tiles, row by row, are the colours of the rolls, with
    /// no turns taken.
    pub fn from_rolls(rolls: &[u8]) -> (g: Game)
        requires
            rolls@.len() == 100,
        ensures
            g.turns_taken() == 0,
            g.tiles() == rolls@.map_values(|n: u8| colour_of_roll(n)),
    {
        let mut board: Vec<Colour> = Vec::new();
        let mut i: usize = 0;
        while i < rolls.len()
            invariant
                i <= rolls@.len(),
                rolls@.len() == 100,
                board@ == rolls@.subrange(0, i as int).map_values(|n: u8| colour_of_roll(n)),
            decreases rolls.len() - i,
        {
            board.push(Colour::from_roll(rolls[i]));
            assert(rolls@.subrange(0, i + 1) =~= rolls@.subrange(0, i as int).push(rolls@[i as int]));
            i = i + 1;
        }
        assert(rolls@.subrange(0, 100) =~= rolls@);
        Game { board, turns: 0 }
    }

    /// A game with the given tiles and no turns taken.
    pub fn from_grid(grid: [[Colour; 10]; 10]) -> (g: Game)
        ensures
            g.turns_taken() == 0,
            g.tiles().len() == 100,
            forall|r: int, c: int|
                0 <= r < 10 && 0 <= c < 10 ==> #[trigger] g.tiles()[tile(r, c)] == grid@[r]@[c],
    {
        let mut board: Vec<Colour> = Vec::new();
        let mut r: usize = 0;
        while r < SIDE
            invariant
                r <= 10,
                board.len() == r * 10,
                forall|r2: int, c2: int|
                    0 <= r2 < r && 0 <= c2 < 10 ==> #[trigger] board@[tile(r2, c2)]
                        == grid@[r2]@[c2],
            decreases 10 - r,
        {
            let row = grid[r];
            let mut c: usize = 0;
            while c < SIDE
                invariant
                    r < 10,
                    c <= 10,
                    row == grid@[r as int],
                    board.len() == r * 10 + c,
                    forall|r2: int, c2: int|
                        0 <= r2 < r && 0 <= c2 < 10 ==> #[trigger] board@[tile(r2, c2)]
                            == grid@[r2]@[c2],
                    forall|c2: int| 0 <= c2 < c ==> #[trigger] board@[tile(r as int, c2)] == row@[c2],
                decreases 10 - c,
            {
                board.push(row[c]);
                c = c + 1;
            }
            r = r + 1;
        }
        Game { board, turns: 0 }
    }

    /// The colour of the tile in `row` and `col`.
    pub fn cell(&self, row: usize, col: usize) -> (c: Colour)
        requires
            row < 10,
            col < 10,
        ensures
            c == self.tiles()[tile(row as int, col as int)],
    {
        proof {
            use_type_invariant(self);
        }
        self.board[row * 10 + col]
    }

    /// The number of turns taken.
    pub fn turns(&self) -> (t: usize)
        ensures
            t == self.turns_taken(),
    {
        self.turns
    }

    /// The game as shown to the player: the number of turns, then the
    /// board with each tile painted in its colour.
    pub fn render(&self) -> (r: String)
        ensures
            r@ == board_text(
                self.turns_taken(),
                Seq::new(100, |i: int| painted_tile_text(self.tiles()[i])),
            ),
    {
        proof {
            use_type_invariant(self);
        }
        let mut painted: Vec<String> = Vec::new();
        let mut i: usize = 0;
        while i < 100
            invariant
                i <= 100,
                self.board@ == self.tiles(),
                self.tiles().len() == 100,
                painted@.len() == i,
                forall|k: int| 0 <= k < i ==> #[trigger] painted@[k]@ == painted_tile_text(self.tiles()[k]),
            decreases 100 - i,
        {
            painted.push(painted_tile(self.board[i]));
            i = i + 1;
        }
        assert(painted@.map_values(|t: String| t@) =~= Seq::new(
            100,
            |i: int| painted_tile_text(self.tiles()[i]),
        ));
        board_string(self.turns, &painted)
    }

    /// Repaints the region connected to the top-left tile with `new_colour`
    /// and counts the turn.
    pub fn apply(&mut self, new_colour: Colour)
        requires
            old(self).turns_taken() < usize::MAX,
        ensures
            final(self).turns_taken() == old(self).turns_taken() + 1,
            final(self).tiles() == flooded(old(self).tiles(), new_colour),
    {
        proof {
            use_type_invariant(&*self);
        }
        let adj = flood_adjacency(&self.board);
        let mut seeds: Vec<usize> = Vec::new();
        seeds.push(0);
        let visited = reachable_from(&adj, &seeds);
        let ghost b = self.board@;
        let mut new_board: Vec<Colour> = Vec::new();
        let mut i: usize = 0;
        while i < TILES
            invariant
                i <= 100,
                b.len() == 100,
                self.board@ == b,
                visited.len() == 100,
                adj.deep_view() == flood_graph(b),
                seeds@ == seq![0usize],
                forall|t: int|
                    0 <= t < 100 ==> (#[trigger] visited[t] <==> reached_from(
                        adj.deep_view(),
                        seeds@,
                        t as usize,
                    )),
                new_board.len() == i,
                forall|t: int| 0 <= t < i ==> #[trigger] new_board@[t] == flooded(b, new_colour)[t],
            decreases 100 - i,
        {
            proof {
                let t: int = i as int;
                if reached_from(adj.deep_view(), seeds@, t as usize) {
                    let k: int = choose|k: int|
                        0 <= k < seeds.len() && #[trigger] reaches(
                            adj.deep_view(),
                            seeds@[k],
                            t as usize,
                        );
                    assert(k == 0);
                }
                if in_flood_region(b, t) {
                    assert(reaches(adj.deep_view(), seeds@[0], t as usize));
                }
            }
            if visited[i] {
                new_board.push(new_colour);
            } else {
                new_board.push(self.board[i]);
            }
            i = i + 1;
        }
        proof {
            assert(new_board@ =~= flooded(b, new_colour));
        }
        self.board = new_board;
        self.turns = self.turns + 1;
    }

    /// The game is won when every tile has the same colour.
    pub fn won(&self) -> (w: bool)
        ensures
            w == one_colour(self.tiles()),
    {
        proof {
            use_type_invariant(self);
        }
        let first = self.board[0];
        let mut i: usize = 1;
        while i < TILES
            invariant
                1 <= i <= 100,
                self.board.len() == 100,
                first == self.board@[0],
                forall|t: int| 0 <= t < i ==> #[trigger] self.board@[t] == first,
            decreases 100 - i,
        {
            if self.board[i] != first {
                return false;
            }
            i = i + 1;
        }
        true
    }
}

/// The same-colour adjacency lists of a board.
fn flood_adjacency(board: &Vec<Colour>) -> (adj: Vec<Vec<usize>>)
    requires
        board.len() == 100,
    ensures
        adj.len() == 100,
        adj.deep_view() == flood_graph(board@),
        well_formed(adj.deep_view()),
{
    let mut adj: Vec<Vec<usize>> = Vec::new();
    let mut i: usize = 0;
    while i < TILES
        invariant
            board.len() == 100,
            i <= 100,
            adj.len() == i,
            forall|j: int| 0 <= j < i ==> #[trigger] adj[j]@ == same_colour_neighbours(board@, j),
        decreases 100 - i,
    {
        let r: usize = i / 10;
        let c: usize = i % 10;
        let mut nb: Vec<usize> = Vec::new();
        if r > 0 && board[i - 10] == board[i] {
            nb.push(i - 10);
        }
        if r < 9 && board[i + 10] == board[i] {
            nb.push(i + 10);
        }
        if c > 0 && board[i - 1] == board[i] {
            nb.push(i - 1);
        }
        if c < 9 && board[i + 1] == board[i] {
            nb.push(i + 1);
        }
        assert(nb@ =~= same_colour_neighbours(board@, i as int));
        adj.push(nb);
        i = i + 1;
    }
    proof {
        assert forall|j: int| 0 <= j < 100 implies #[trigger] adj.deep_view()[j]
            == flood_graph(board@)[j] by {
            assert(adj.deep_view()[j] =~= adj[j]@);
        }
        assert(adj.deep_view() =~= flood_graph(board@));
        assert forall|u: int, k: int|
            0 <= u < 100 && 0 <= k < adj.deep_view()[u].len() implies #[trigger] adj.deep_view()[u][k]
            < 100 by {
            assert(adj.deep_view()[u] == same_colour_neighbours(board@, u));
        }
    }
    adj
}

} // verus!
