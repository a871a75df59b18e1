//! Parsers for two line formats. A sensor report reads
//! `Sensor at x=2, y=18: closest beacon is at x=-2, y=15`, with reports
//! separated by newlines. A packet is a bracketed, comma-separated list
//! whose items are bytes written in decimal or packets again, such as
//! `[1,[2,3],[]]`.
//!
//! Each parser is stated as a function on the input's bytes: it reads from a
//! position and gives what it read together with the position after it.
//! Numbers take every digit that follows and fail when the value does not
//! fit; a list stops before a separator that is not followed by an element.

use vstd::prelude::*;
use vstd::string::StringSliceAdditionalSpecFns;
use crate::bytes::{
    all_digits,
    ascii,
    ascii_bytes,
    digits_value,
    is_digit,
    decimal,
    lemma_decimal,
    lemma_digits_grow,
    push_decimal,
    matches_at,
    occurs_at,
};

verus! {

// ---------------------------------------------------------------------------
// Numbers and fixed words
// ---------------------------------------------------------------------------

/// The number of decimal digits in `s` from `p` on, up to the first byte
/// that is not one.
pub open spec fn digit_run(s: Seq<u8>, p: int) -> nat
    decreases s.len() - p,
{
    if 0 <= p < s.len() && is_digit(s[p]) {
        1 + digit_run(s, p + 1)
    } else {
        0
    }
}

/// The value of the run of digits at `p`.
pub open spec fn run_value(s: Seq<u8>, p: int) -> nat {
    digits_value(s.subrange(p, p + digit_run(s, p)))
}

/// An unsigned byte written at `p`: one or more digits, all of those that
/// follow, with a value of at most 255; then the position after them.
pub open spec fn after_u8(s: Seq<u8>, p: int) -> Option<(u8, int)> {
    if digit_run(s, p) == 0 || run_value(s, p) > 255 {
        None
    } else {
        Some((run_value(s, p) as u8, p + digit_run(s, p)))
    }
}

/// Where the digits of a signed number written at `p` begin: after a `-` or
/// `+` if there is one.
pub open spec fn unsigned_start(s: Seq<u8>, p: int) -> int {
    if 0 <= p < s.len() && (s[p] == 45u8 || s[p] == 43u8) {
        p + 1
    } else {
        p
    }
}

/// A signed byte written at `p`: an optional `-` or `+`, then one or more
/// digits, all of those that follow, with a value in `-128..=127`; then the
/// position after them.
pub open spec fn after_i8(s: Seq<u8>, p: int) -> Option<(i8, int)> {
    let q = unsigned_start(s, p);
    let negative = 0 <= p < s.len() && s[p] == 45u8;
    if digit_run(s, q) == 0 {
        None
    } else if negative {
        if run_value(s, q) > 128 {
            None
        } else {
            Some(((0 - run_value(s, q)) as i8, q + digit_run(s, q)))
        }
    } else {
        if run_value(s, q) > 127 {
            None
        } else {
            Some((run_value(s, q) as i8, q + digit_run(s, q)))
        }
    }
}

/// The position after the word `t`, if it is written at `p`.
pub open spec fn after_tag(s: Seq<u8>, p: int, t: Seq<u8>) -> Option<int> {
    if occurs_at(s, t, p) {
        Some(p + t.len())
    } else {
        None
    }
}

/// The run of digits at `p` stays inside `s`, holds only digits and ends
/// where the text does or at a byte that is no digit.
proof fn lemma_run(s: Seq<u8>, p: int)
    requires
        0 <= p <= s.len(),
    ensures
        p + digit_run(s, p) <= s.len(),
        all_digits(s.subrange(p, p + digit_run(s, p))),
        p + digit_run(s, p) < s.len() ==> !is_digit(s[p + digit_run(s, p)]),
    decreases s.len() - p,
{
    if p < s.len() && is_digit(s[p]) {
        lemma_run(s, p + 1);
        let n = digit_run(s, p);
        let d = s.subrange(p, p + n);
        let e = s.subrange(p + 1, p + n);
        assert forall|i: int| 0 <= i < d.len() implies #[trigger] is_digit(d[i]) by {
            if i > 0 {
                assert(d[i] == e[i - 1]);
            }
        }
    }
}

/// Reads the run of digits at `p` when its value is at most `cap`.
fn digits_at(s: &[u8], p: usize, cap: u16) -> (r: Option<(u16, usize)>)
    requires
        p <= s.len(),
        cap <= 1000,
    ensures
        match r {
            Some((v, q)) => {
                &&& digit_run(s@, p as int) > 0
                &&& q == p + digit_run(s@, p as int)
                &&& v == run_value(s@, p as int)
                &&& v <= cap
            },
            None => digit_run(s@, p as int) == 0 || run_value(s@, p as int) > cap,
        },
{
    let mut q: usize = p;
    let mut v: u16 = 0;
    assert(s@.subrange(p as int, p as int) =~= Seq::<u8>::empty());
    while q < s.len() && 48u8 <= s[q] && s[q] <= 57u8
        invariant
            p <= q <= s.len(),
            cap <= 1000,
            v <= cap,
            digit_run(s@, p as int) == (q - p) + digit_run(s@, q as int),
            v == digits_value(s@.subrange(p as int, q as int)),
        decreases s.len() - q,
    {
        let d: u16 = (s[q] - 48u8) as u16;
        assert(s@.subrange(p as int, q + 1).drop_last() =~= s@.subrange(p as int, q as int));
        let next: u16 = v * 10 + d;
        if next > cap {
            proof {
                let n = digit_run(s@, p as int);
                let run = s@.subrange(p as int, p + n);
                lemma_run(s@, p as int);
                lemma_digits_grow(run, q + 1 - p, n as int);
                assert(run.subrange(0, q + 1 - p) =~= s@.subrange(p as int, q + 1));
                assert(run.subrange(0, n as int) =~= run);
            }
            return None;
        }
        v = next;
        q = q + 1;
    }
    if q == p {
        None
    } else {
        Some((v, q))
    }
}

/// Reads an unsigned byte at `p`.
fn u8_at(s: &[u8], p: usize) -> (r: Option<(u8, usize)>)
    requires
        p <= s.len(),
    ensures
        match r {
            Some((v, q)) => after_u8(s@, p as int) == Some((v, q as int)) && p < q <= s.len(),
            None => after_u8(s@, p as int) is None,
        },
{
    proof {
        lemma_run(s@, p as int);
    }
    match digits_at(s, p, 255) {
        None => None,
        Some((v, q)) => Some((v as u8, q)),
    }
}

/// Reads a signed byte at `p`.
fn i8_at(s: &[u8], p: usize) -> (r: Option<(i8, usize)>)
    requires
        p <= s.len(),
    ensures
        match r {
            Some((v, q)) => after_i8(s@, p as int) == Some((v, q as int)) && p < q <= s.len(),
            None => after_i8(s@, p as int) is None,
        },
{
    let negative: bool = p < s.len() && s[p] == 45u8;
    let q: usize = if p < s.len() && (s[p] == 45u8 || s[p] == 43u8) {
        p + 1
    } else {
        p
    };
    proof {
        lemma_run(s@, q as int);
    }
    let cap: u16 = if negative {
        128
    } else {
        127
    };
    match digits_at(s, q, cap) {
        None => None,
        Some((v, end)) => {
            if negative {
                let w: i16 = 0i16 - (v as i16);
                Some((w as i8, end))
            } else {
                Some((v as i8, end))
            }
        },
    }
}

/// Reads the word `t` at `p`.
fn tag_at(s: &[u8], p: usize, t: &[u8]) -> (r: Option<usize>)
    requires
        p <= s.len(),
    ensures
        match r {
            Some(q) => after_tag(s@, p as int, t@) == Some(q as int) && p + t@.len() == q && q <= s.len(),
            None => after_tag(s@, p as int, t@) is None,
        },
{
    if matches_at(s, t, p) {
        Some(p + t.len())
    } else {
        None
    }
}

// ---------------------------------------------------------------------------
// Sensor reports
// ---------------------------------------------------------------------------

/// A point on the grid.
#[derive(Clone, Copy, Debug, PartialEq, Eq, Structural)]
pub struct Coord {
    pub x: i8,
    pub y: i8,
}

/// A sensor and the beacon closest to it.
#[derive(Clone, Copy, Debug, PartialEq, Eq, Structural)]
pub struct Line {
    pub sensor: Coord,
    pub beacon: Coord,
}

/// The words before the sensor's `x`.
pub open spec fn sensor_word() -> Seq<u8> {
    ascii("Sensor at x="@)
}

/// The words between an `x` and its `y`.
pub open spec fn y_word() -> Seq<u8> {
    ascii(", y="@)
}

/// The words between the sensor and the beacon's `x`.
pub open spec fn beacon_word() -> Seq<u8> {
    ascii(": closest beacon is at x="@)
}

/// A sensor report written at `p`, and the position after it.
pub open spec fn line_at(s: Seq<u8>, p: int) -> Option<(Line, int)> {
    match after_tag(s, p, sensor_word()) {
        None => None,
        Some(p1) => match after_i8(s, p1) {
            None => None,
            Some((sx, p2)) => match after_tag(s, p2, y_word()) {
                None => None,
                Some(p3) => match after_i8(s, p3) {
                    None => None,
                    Some((sy, p4)) => match after_tag(s, p4, beacon_word()) {
                        None => None,
                        Some(p5) => match after_i8(s, p5) {
                            None => None,
                            Some((bx, p6)) => match after_tag(s, p6, y_word()) {
                                None => None,
                                Some(p7) => match after_i8(s, p7) {
                                    None => None,
                                    Some((by, p8)) => Some(
                                        (
                                            Line {
                                                sensor: Coord { x: sx, y: sy },
                                                beacon: Coord { x: bx, y: by },
                                            },
                                            p8,
                                        ),
                                    ),
                                },
                            },
                        },
                    },
                },
            },
        },
    }
}

/// The reports that follow at `p`, each after a newline, as long as one
/// does; and the position after the last of them. A newline that no report
/// follows is left unread.
pub open spec fn more_lines(s: Seq<u8>, p: int) -> (Seq<Line>, int)
    decreases s.len() - p,
{
    if 0 <= p < s.len() && s[p] == 10u8 {
        match line_at(s, p + 1) {
            Some((l, q)) => if p + 1 < q <= s.len() {
                let rest = more_lines(s, q);
                (seq![l] + rest.0, rest.1)
            } else {
                (seq![], p)
            },
            None => (seq![], p),
        }
    } else {
        (seq![], p)
    }
}

/// The newline-separated reports at the start of `s`, and the position
/// after the last of them.
pub open spec fn lines_at(s: Seq<u8>) -> (Seq<Line>, int) {
    match line_at(s, 0) {
        Some((l, q)) => if 0 < q <= s.len() {
            let rest = more_lines(s, q);
            (seq![l] + rest.0, rest.1)
        } else {
            (seq![], 0)
        },
        None => (seq![], 0),
    }
}

/// The reports written in `s`, if they make up all of it.
pub open spec fn lines_spec(s: Seq<u8>) -> Option<Seq<Line>> {
    if lines_at(s).1 == s.len() {
        Some(lines_at(s).0)
    } else {
        None
    }
}

/// The text is not what the parser expects.
#[derive(Clone, Copy, Debug, PartialEq, Eq, Structural)]
pub struct ParseError;

/// Reads a sensor report at `p`.
pub fn parse_line(s: &[u8], p: usize) -> (r: Option<(Line, usize)>)
    requires
        p <= s.len(),
    ensures
        match r {
            Some((l, q)) => line_at(s@, p as int) == Some((l, q as int)) && p < q <= s.len(),
            None => line_at(s@, p as int) is None,
        },
{
    proof {
        reveal_strlit("Sensor at x=");
        reveal_strlit(", y=");
        reveal_strlit(": closest beacon is at x=");
    }
    let sensor: &[u8] = ascii_bytes("Sensor at x=");
    let y: &[u8] = ascii_bytes(", y=");
    let beacon: &[u8] = ascii_bytes(": closest beacon is at x=");
    let p1: usize = match tag_at(s, p, sensor) {
        None => return None,
        Some(q) => q,
    };
    let (sx, p2): (i8, usize) = match i8_at(s, p1) {
        None => return None,
        Some(x) => x,
    };
    let p3: usize = match tag_at(s, p2, y) {
        None => return None,
        Some(q) => q,
    };
    let (sy, p4): (i8, usize) = match i8_at(s, p3) {
        None => return None,
        Some(x) => x,
    };
    let p5: usize = match tag_at(s, p4, beacon) {
        None => return None,
        Some(q) => q,
    };
    let (bx, p6): (i8, usize) = match i8_at(s, p5) {
        None => return None,
        Some(x) => x,
    };
    let p7: usize = match tag_at(s, p6, y) {
        None => return None,
        Some(q) => q,
    };
    let (by, p8): (i8, usize) = match i8_at(s, p7) {
        None => return None,
        Some(x) => x,
    };
    Some((Line { sensor: Coord { x: sx, y: sy }, beacon: Coord { x: bx, y: by } }, p8))
}

/// Reads the newline-separated reports at the start of `s`.
fn lines_from(s: &[u8]) -> (r: (Vec<Line>, usize))
    ensures
        r.0@ == lines_at(s@).0,
        r.1 == lines_at(s@).1,
{
    let mut found: Vec<Line> = Vec::new();
    let mut pos: usize = match parse_line(s, 0) {
        None => return (found, 0),
        Some((l, q)) => {
            found.push(l);
            q
        },
    };
    assert(found@ =~= seq![found@[0]]);
    while pos < s.len() && s[pos] == 10u8
        invariant
            0 < pos <= s.len(),
            lines_at(s@).0 == found@ + more_lines(s@, pos as int).0,
            lines_at(s@).1 == more_lines(s@, pos as int).1,
        decreases s.len() - pos,
    {
        match parse_line(s, pos + 1) {
            None => {
                assert(found@ + Seq::<Line>::empty() =~= found@);
                return (found, pos);
            },
            Some((l, q)) => {
                let ghost before = found@;
                let ghost rest = more_lines(s@, q as int);
                found.push(l);
                assert(before + (seq![l] + rest.0) =~= found@ + rest.0);
                pos = q;
            },
        }
    }
    assert(more_lines(s@, pos as int).0 =~= Seq::<Line>::empty());
    assert(found@ + Seq::<Line>::empty() =~= found@);
    (found, pos)
}

/// Reads newline-separated sensor reports that make up the whole text.
pub fn parse_lines(input: &str) -> (r: Result<Vec<Line>, ParseError>)
    ensures
        match r {
            Ok(v) => lines_spec(input.spec_bytes()) == Some(v@),
            Err(_) => lines_spec(input.spec_bytes()) is None,
        },
{
    let s: &[u8] = input.as_bytes();
    let (found, end) = lines_from(s);
    if end == s.len() {
        Ok(found)
    } else {
        Err(ParseError)
    }
}


// ---------------------------------------------------------------------------
// Packets
// ---------------------------------------------------------------------------

/// An item of a packet, as a value: a byte, or a list of items.
pub enum PItem {
    Num(u8),
    List(Seq<PItem>),
}

/// An item of a packet: a byte, or a packet.
pub enum Item {
    Value(u8),
    Packet(Packet),
}

/// A list of items.
pub struct Packet(pub Vec<Item>);

/// The value of an item.
pub open spec fn item_model(i: Item) -> PItem
    decreases i,
{
    match i {
        Item::Value(v) => PItem::Num(v),
        Item::Packet(p) => PItem::List(items_model(p.0@)),
    }
}

/// The values of a sequence of items.
pub open spec fn items_model(s: Seq<Item>) -> Seq<PItem>
    decreases s,
{
    if s.len() == 0 {
        seq![]
    } else {
        items_model(s.subrange(0, s.len() - 1)).push(item_model(s[s.len() - 1]))
    }
}

/// The value of a packet: the values of its items.
pub open spec fn packet_model(p: Packet) -> Seq<PItem> {
    items_model(p.0@)
}

/// An item written at `p`: a byte if digits are written there, else a
/// packet; and the position after it.
pub open spec fn item_at(s: Seq<u8>, p: int) -> Option<(PItem, int)>
    decreases s.len() - p, 2int,
{
    match after_u8(s, p) {
        Some((v, q)) => Some((PItem::Num(v), q)),
        None => match packet_at(s, p) {
            Some((l, q)) => Some((PItem::List(l), q)),
            None => None,
        },
    }
}

/// A packet written at `p`: `[`, its comma-separated items, `]`; and the
/// position after it.
pub open spec fn packet_at(s: Seq<u8>, p: int) -> Option<(Seq<PItem>, int)>
    decreases s.len() - p, 1int,
{
    if 0 <= p < s.len() && s[p] == 91u8 {
        let items = list_at(s, p + 1);
        if 0 <= items.1 < s.len() && s[items.1] == 93u8 {
            Some((items.0, items.1 + 1))
        } else {
            None
        }
    } else {
        None
    }
}

/// The comma-separated items written at `p`, as many as there are, and the
/// position after the last of them; none if no item is written at `p`.
pub open spec fn list_at(s: Seq<u8>, p: int) -> (Seq<PItem>, int)
    decreases s.len() - p, 3int,
{
    match item_at(s, p) {
        Some((i, q)) => if p < q <= s.len() {
            let rest = more_items(s, q);
            (seq![i] + rest.0, rest.1)
        } else {
            (seq![], p)
        },
        None => (seq![], p),
    }
}

/// The items that follow at `p`, each after a comma, as long as one does;
/// and the position after the last of them. A comma that no item follows is
/// left unread.
pub open spec fn more_items(s: Seq<u8>, p: int) -> (Seq<PItem>, int)
    decreases s.len() - p, 4int,
{
    if 0 <= p < s.len() && s[p] == 44u8 {
        match item_at(s, p + 1) {
            Some((i, q)) => if p + 1 < q <= s.len() {
                let rest = more_items(s, q);
                (seq![i] + rest.0, rest.1)
            } else {
                (seq![], p)
            },
            None => (seq![], p),
        }
    } else {
        (seq![], p)
    }
}

/// The packet written in `s`, if it makes up all of it.
pub open spec fn packet_line(s: Seq<u8>) -> Option<Seq<PItem>> {
    match packet_at(s, 0) {
        Some((l, q)) => if q == s.len() {
            Some(l)
        } else {
            None
        },
        None => None,
    }
}

proof fn lemma_items_model_push(s: Seq<Item>, i: Item)
    ensures
        items_model(s.push(i)) == items_model(s).push(item_model(i)),
{
    assert(s.push(i).subrange(0, s.len() as int) =~= s);
}

/// Reads an item at `p`.
fn item_from(s: &[u8], p: usize) -> (r: Option<(Item, usize)>)
    requires
        p <= s.len(),
    ensures
        match r {
            Some((i, q)) => item_at(s@, p as int) == Some((item_model(i), q as int)) && p < q
                <= s.len(),
            None => item_at(s@, p as int) is None,
        },
    decreases s.len() - p, 2int,
{
    match u8_at(s, p) {
        Some((v, q)) => Some((Item::Value(v), q)),
        None => match packet_from(s, p) {
            Some((k, q)) => Some((Item::Packet(k), q)),
            None => None,
        },
    }
}

/// Reads a packet at `p`.
fn packet_from(s: &[u8], p: usize) -> (r: Option<(Packet, usize)>)
    requires
        p <= s.len(),
    ensures
        match r {
            Some((k, q)) => packet_at(s@, p as int) == Some((packet_model(k), q as int)) && p < q
                <= s.len(),
            None => packet_at(s@, p as int) is None,
        },
    decreases s.len() - p, 1int,
{
    if p < s.len() && s[p] == 91u8 {
        let (items, q) = list_from(s, p + 1);
        if q < s.len() && s[q] == 93u8 {
            Some((Packet(items), q + 1))
        } else {
            None
        }
    } else {
        None
    }
}

/// Reads the comma-separated items at `p`.
fn list_from(s: &[u8], p: usize) -> (r: (Vec<Item>, usize))
    requires
        p <= s.len(),
    ensures
        items_model(r.0@) == list_at(s@, p as int).0,
        r.1 == list_at(s@, p as int).1,
        p <= r.1 <= s.len(),
    decreases s.len() - p, 3int,
{
    let mut found: Vec<Item> = Vec::new();
    let mut pos: usize = match item_from(s, p) {
        None => return (found, p),
        Some((i, q)) => {
            proof {
                lemma_items_model_push(found@, i);
            }
            found.push(i);
            q
        },
    };
    while pos < s.len() && s[pos] == 44u8
        invariant
            p < pos <= s.len(),
            list_at(s@, p as int).0 == items_model(found@) + more_items(s@, pos as int).0,
            list_at(s@, p as int).1 == more_items(s@, pos as int).1,
        decreases s.len() - pos,
    {
        match item_from(s, pos + 1) {
            None => {
                assert(items_model(found@) + Seq::<PItem>::empty() =~= items_model(found@));
                return (found, pos);
            },
            Some((i, q)) => {
                let ghost before = items_model(found@);
                let ghost rest = more_items(s@, q as int);
                proof {
                    lemma_items_model_push(found@, i);
                }
                found.push(i);
                assert(before + (seq![item_model(i)] + rest.0) =~= items_model(found@) + rest.0);
                pos = q;
            },
        }
    }
    assert(items_model(found@) + Seq::<PItem>::empty() =~= items_model(found@));
    (found, pos)
}

/// Reads a line that holds one packet and nothing else.
pub fn parse_packet_line(input: &str) -> (r: Result<Packet, ParseError>)
    ensures
        match r {
            Ok(k) => packet_line(input.spec_bytes()) == Some(packet_model(k)),
            Err(_) => packet_line(input.spec_bytes()) is None,
        },
{
    let s: &[u8] = input.as_bytes();
    match packet_from(s, 0) {
        Some((k, q)) => if q == s.len() {
            Ok(k)
        } else {
            Err(ParseError)
        },
        None => Err(ParseError),
    }
}


// ---------------------------------------------------------------------------
// Writing packets back
// ---------------------------------------------------------------------------

/// The text of an item: a byte in decimal, or a list in brackets.
pub open spec fn item_text(i: PItem) -> Seq<u8>
    decreases i,
{
    match i {
        PItem::Num(v) => decimal(v as nat),
        PItem::List(l) => seq![91u8] + elems_text(l) + seq![93u8],
    }
}

/// The texts of the items of `l`, separated by commas.
pub open spec fn elems_text(l: Seq<PItem>) -> Seq<u8>
    decreases l,
{
    if l.len() == 0 {
        seq![]
    } else {
        item_text(l[0]) + rest_text(l.subrange(1, l.len() as int))
    }
}

/// The texts of the items of `l`, each after a comma.
pub open spec fn rest_text(l: Seq<PItem>) -> Seq<u8>
    decreases l,
{
    if l.len() == 0 {
        seq![]
    } else {
        seq![44u8] + item_text(l[0]) + rest_text(l.subrange(1, l.len() as int))
    }
}

/// The text of a packet with the items `l`.
pub open spec fn packet_text(l: Seq<PItem>) -> Seq<u8> {
    item_text(PItem::List(l))
}

proof fn lemma_item_text_nonempty(i: PItem)
    ensures
        item_text(i).len() >= 1,
{
    match i {
        PItem::Num(v) => lemma_decimal(v as nat),
        PItem::List(l) => {},
    }
}

/// A run of `n` digits at `p` that ends where the text does or before a
/// byte that is no digit.
proof fn lemma_digit_run_is(s: Seq<u8>, p: int, n: int)
    requires
        0 <= p,
        0 <= n,
        p + n <= s.len(),
        forall|j: int| p <= j < p + n ==> is_digit(#[trigger] s[j]),
        p + n == s.len() || !is_digit(s[p + n]),
    ensures
        digit_run(s, p) == n,
    decreases n,
{
    if n > 0 {
        lemma_digit_run_is(s, p + 1, n - 1);
    }
}

/// An item's text written at `p` and followed by the end or by a byte that
/// is no digit is read back as the item.
proof fn lemma_read_item(s: Seq<u8>, p: int, i: PItem)
    requires
        0 <= p,
        p + item_text(i).len() <= s.len(),
        s.subrange(p, p + item_text(i).len()) == item_text(i),
        p + item_text(i).len() == s.len() || !is_digit(s[p + item_text(i).len()]),
    ensures
        item_at(s, p) == Some((i, p + item_text(i).len())),
    decreases i,
{
    let t = item_text(i);
    match i {
        PItem::Num(v) => {
            lemma_decimal(v as nat);
            assert forall|j: int| p <= j < p + t.len() implies is_digit(#[trigger] s[j]) by {
                assert(s[j] == s.subrange(p, p + t.len())[j - p]);
            }
            lemma_digit_run_is(s, p, t.len() as int);
        },
        PItem::List(l) => {
            let e = elems_text(l);
            assert(s[p] == s.subrange(p, p + t.len())[0]);
            assert(s.subrange(p + 1, p + 1 + e.len()) =~= e) by {
                assert forall|j: int| 0 <= j < e.len() implies s.subrange(p + 1, p + 1 + e.len())[j]
                    == e[j] by {
                    assert(s.subrange(p, p + t.len())[j + 1] == t[j + 1]);
                }
            }
            assert(s[p + 1 + e.len()] == s.subrange(p, p + t.len())[e.len() + 1int]);
            lemma_read_elems(s, p + 1, l);
        },
    }
}

/// The items' text written at `p` and followed by `]` is read back as the
/// items.
proof fn lemma_read_elems(s: Seq<u8>, p: int, l: Seq<PItem>)
    requires
        0 <= p,
        p + elems_text(l).len() < s.len(),
        s.subrange(p, p + elems_text(l).len()) == elems_text(l),
        s[p + elems_text(l).len()] == 93u8,
    ensures
        list_at(s, p) == (l, p + elems_text(l).len()),
    decreases l,
{
    if l.len() == 0 {
        assert(l =~= Seq::<PItem>::empty());
    } else {
        let t = item_text(l[0]);
        let tail = l.subrange(1, l.len() as int);
        let r = rest_text(tail);
        let e = elems_text(l);
        lemma_item_text_nonempty(l[0]);
        assert(s.subrange(p, p + t.len()) =~= t) by {
            assert forall|j: int| 0 <= j < t.len() implies s.subrange(p, p + t.len())[j] == t[j] by {
                assert(s.subrange(p, p + e.len())[j] == e[j]);
            }
        }
        assert(s.subrange(p + t.len(), p + t.len() + r.len()) =~= r) by {
            assert forall|j: int| 0 <= j < r.len() implies s.subrange(
                p + t.len(),
                p + t.len() + r.len(),
            )[j] == r[j] by {
                assert(s.subrange(p, p + e.len())[t.len() + j] == e[t.len() + j]);
            }
        }
        if r.len() > 0 {
            assert(tail.len() > 0);
            assert(s[p + t.len()] == s.subrange(p + t.len(), p + t.len() + r.len())[0]);
        }
        lemma_read_item(s, p, l[0]);
        lemma_read_rest(s, p + t.len(), tail);
        assert(seq![l[0]] + tail =~= l);
    }
}

/// The items' text, each after a comma, written at `p` and followed by `]`
/// is read back as the items.
proof fn lemma_read_rest(s: Seq<u8>, p: int, l: Seq<PItem>)
    requires
        0 <= p,
        p + rest_text(l).len() < s.len(),
        s.subrange(p, p + rest_text(l).len()) == rest_text(l),
        s[p + rest_text(l).len()] == 93u8,
    ensures
        more_items(s, p) == (l, p + rest_text(l).len()),
    decreases l,
{
    if l.len() == 0 {
        assert(l =~= Seq::<PItem>::empty());
    } else {
        let t = item_text(l[0]);
        let tail = l.subrange(1, l.len() as int);
        let r = rest_text(tail);
        let e = rest_text(l);
        lemma_item_text_nonempty(l[0]);
        assert(s[p] == s.subrange(p, p + e.len())[0]);
        assert(s.subrange(p + 1, p + 1 + t.len()) =~= t) by {
            assert forall|j: int| 0 <= j < t.len() implies s.subrange(p + 1, p + 1 + t.len())[j]
                == t[j] by {
                assert(s.subrange(p, p + e.len())[1 + j] == e[1 + j]);
            }
        }
        assert(s.subrange(p + 1 + t.len(), p + 1 + t.len() + r.len()) =~= r) by {
            assert forall|j: int| 0 <= j < r.len() implies s.subrange(
                p + 1 + t.len(),
                p + 1 + t.len() + r.len(),
            )[j] == r[j] by {
                assert(s.subrange(p, p + e.len())[1 + t.len() + j] == e[1 + t.len() + j]);
            }
        }
        if r.len() > 0 {
            assert(tail.len() > 0);
            assert(s[p + 1 + t.len()] == s.subrange(p + 1 + t.len(), p + 1 + t.len() + r.len())[0]);
        }
        lemma_read_item(s, p + 1, l[0]);
        lemma_read_rest(s, p + 1 + t.len(), tail);
        assert(seq![l[0]] + tail =~= l);
    }
}

/// Writing a packet and reading the text back gives the same packet.
pub proof fn lemma_packet_roundtrip(l: Seq<PItem>)
    ensures
        packet_line(packet_text(l)) == Some(l),
{
    let s = packet_text(l);
    assert(s.subrange(0, s.len() as int) =~= s);
    lemma_read_item(s, 0, PItem::List(l));
}

/// A number written at `i` starts with a zero that another digit follows.
pub open spec fn leading_zero_at(s: Seq<u8>, i: int) -> bool {
    &&& 0 <= i
    &&& i + 1 < s.len()
    &&& s[i] == 48u8
    &&& is_digit(s[i + 1])
    &&& (i == 0 || !is_digit(s[i - 1]))
}

/// No number in the text is written with a leading zero.
pub open spec fn no_leading_zeros(s: Seq<u8>) -> bool {
    forall|i: int| !#[trigger] leading_zero_at(s, i)
}

/// Digits without a leading zero are the decimal text of their value.
proof fn lemma_digits_are_decimal(d: Seq<u8>)
    requires
        d.len() >= 1,
        all_digits(d),
        d.len() == 1 || d[0] != 48u8,
    ensures
        decimal(digits_value(d)) == d,
    decreases d.len(),
{
    let e = d.drop_last();
    assert(is_digit(d[d.len() - 1]));
    let b: int = d.last() - 48;
    assert(digits_value(d) == digits_value(e) * 10 + b);
    if d.len() == 1 {
        assert(digits_value(e) == 0);
        assert(decimal(digits_value(d)) =~= d);
    } else {
        assert(all_digits(e)) by {
            assert forall|i: int| 0 <= i < e.len() implies #[trigger] is_digit(e[i]) by {
                assert(e[i] == d[i]);
            }
        }
        assert(e[0] == d[0]);
        lemma_digits_are_decimal(e);
        lemma_digits_grow(e, 1, e.len() as int);
        assert(e.subrange(0, e.len() as int) =~= e);
        let f = e.subrange(0, 1);
        assert(f.drop_last() =~= Seq::<u8>::empty());
        assert(digits_value(f.drop_last()) == 0);
        assert(f.last() == e[0]);
        assert(is_digit(e[0]));
        assert(digits_value(f) == e[0] - 48);
        let v = digits_value(e);
        let n = digits_value(d);
        assert(v >= 1);
        assert(0 <= b < 10);
        assert(n / 10 == v && n % 10 == b && n >= 10) by (nonlinear_arith)
            requires
                n == v * 10 + b,
                0 <= b < 10,
                v >= 1,
        ;
        assert(decimal(n) == decimal(v).push((48 + b) as u8));
        assert(decimal(n) =~= d);
    }
}

/// An item read at `p`, where no digit comes just before, from a text
/// without leading zeros: its text is what was read.
proof fn lemma_text_of_item(s: Seq<u8>, p: int)
    requires
        0 <= p,
        p == 0 || !is_digit(s[p - 1]),
        no_leading_zeros(s),
        item_at(s, p) is Some,
    ensures
        p < item_at(s, p).unwrap().1 <= s.len(),
        s.subrange(p, item_at(s, p).unwrap().1) == item_text(item_at(s, p).unwrap().0),
    decreases s.len() - p, 2int,
{
    if after_u8(s, p) is Some {
        let v = after_u8(s, p).unwrap().0;
        assert(digit_run(s, p) != 0);
        assert(p < s.len());
        lemma_run(s, p);
        let n = digit_run(s, p);
        let d = s.subrange(p, p + n);
        assert(d[0] == s[p]);
        assert(is_digit(d[0]));
        if n > 1 {
            assert(d[1] == s[p + 1]);
            assert(is_digit(s[p + 1]));
            assert(!leading_zero_at(s, p));
        }
        lemma_digits_are_decimal(d);
        assert(run_value(s, p) == digits_value(d));
        assert(v as nat == run_value(s, p));
        assert(item_at(s, p) == Some((PItem::Num(v), p + n)));
    } else {
        lemma_text_of_packet(s, p);
    }
}

/// A packet read at `p` from a text without leading zeros: its text is what
/// was read.
proof fn lemma_text_of_packet(s: Seq<u8>, p: int)
    requires
        0 <= p,
        no_leading_zeros(s),
        packet_at(s, p) is Some,
    ensures
        p < packet_at(s, p).unwrap().1 <= s.len(),
        s.subrange(p, packet_at(s, p).unwrap().1) == packet_text(packet_at(s, p).unwrap().0),
    decreases s.len() - p, 1int,
{
    let items = list_at(s, p + 1);
    lemma_text_of_list(s, p + 1);
    let l = items.0;
    let q = items.1;
    assert(s.subrange(p, q + 1) =~= seq![91u8] + s.subrange(p + 1, q) + seq![93u8]);
}

/// The items read at `p`, just after a `[`, from a text without leading
/// zeros: their text is what was read.
proof fn lemma_text_of_list(s: Seq<u8>, p: int)
    requires
        0 < p <= s.len(),
        !is_digit(s[p - 1]),
        no_leading_zeros(s),
    ensures
        p <= list_at(s, p).1 <= s.len(),
        s.subrange(p, list_at(s, p).1) == elems_text(list_at(s, p).0),
    decreases s.len() - p, 3int,
{
    match item_at(s, p) {
        Some((i, q)) => {
            if p < q <= s.len() {
                lemma_text_of_item(s, p);
                lemma_text_of_more(s, q);
                let rest = more_items(s, q);
                let l = seq![i] + rest.0;
                assert(l[0] == i);
                assert(l.subrange(1, l.len() as int) =~= rest.0);
                assert(s.subrange(p, rest.1) =~= s.subrange(p, q) + s.subrange(q, rest.1));
            } else {
                assert(elems_text(Seq::<PItem>::empty()) == Seq::<u8>::empty());
                assert(s.subrange(p, p) =~= Seq::<u8>::empty());
            }
        },
        None => {
            assert(elems_text(Seq::<PItem>::empty()) == Seq::<u8>::empty());
            assert(s.subrange(p, p) =~= Seq::<u8>::empty());
        },
    }
}

/// The items read at `p`, each after a comma, from a text without leading
/// zeros: their text is what was read.
proof fn lemma_text_of_more(s: Seq<u8>, p: int)
    requires
        0 <= p <= s.len(),
        no_leading_zeros(s),
    ensures
        p <= more_items(s, p).1 <= s.len(),
        s.subrange(p, more_items(s, p).1) == rest_text(more_items(s, p).0),
    decreases s.len() - p, 4int,
{
    assert(rest_text(Seq::<PItem>::empty()) == Seq::<u8>::empty());
    assert(s.subrange(p, p) =~= Seq::<u8>::empty());
    if 0 <= p < s.len() && s[p] == 44u8 {
        match item_at(s, p + 1) {
            Some((i, q)) => {
                if p + 1 < q <= s.len() {
                    lemma_text_of_item(s, p + 1);
                    lemma_text_of_more(s, q);
                    let rest = more_items(s, q);
                    let l = seq![i] + rest.0;
                    assert(l[0] == i);
                    assert(l.subrange(1, l.len() as int) =~= rest.0);
                    assert(s.subrange(p, rest.1) =~= seq![44u8] + s.subrange(p + 1, q) + s.subrange(
                        q,
                        rest.1,
                    ));
                }
            },
            None => {},
        }
    }
}

/// Reading a line that holds a packet, written without leading zeros, and
/// writing the packet back gives the line.
pub proof fn lemma_canonical_line_roundtrip(s: Seq<u8>)
    requires
        no_leading_zeros(s),
        packet_line(s) is Some,
    ensures
        packet_text(packet_line(s)->0) == s,
{
    lemma_text_of_packet(s, 0);
    assert(s.subrange(0, s.len() as int) =~= s);
}

proof fn lemma_rest_push(m: Seq<PItem>, x: PItem)
    ensures
        rest_text(m.push(x)) == rest_text(m) + seq![44u8] + item_text(x),
    decreases m.len(),
{
    if m.len() == 0 {
        assert(m.push(x).subrange(1, 1) =~= Seq::<PItem>::empty());
        assert(m.push(x)[0] == x);
        assert(rest_text(Seq::<PItem>::empty()) == Seq::<u8>::empty());
        assert(rest_text(m.push(x)) == seq![44u8] + item_text(x) + Seq::<u8>::empty());
        assert(rest_text(m.push(x)) =~= rest_text(m) + seq![44u8] + item_text(x));
    } else {
        let tail = m.subrange(1, m.len() as int);
        assert(m.push(x).subrange(1, m.len() + 1int) =~= tail.push(x));
        lemma_rest_push(tail, x);
        assert(m.push(x)[0] == m[0]);
        assert(rest_text(m.push(x)) == seq![44u8] + item_text(m[0]) + rest_text(tail.push(x)));
        let a = seq![44u8] + item_text(m[0]);
        assert(rest_text(m) == a + rest_text(tail));
        assert(rest_text(m.push(x)) == a + (rest_text(tail) + seq![44u8] + item_text(x)));
        assert(a + (rest_text(tail) + seq![44u8] + item_text(x)) =~= a + rest_text(tail) + seq![44u8]
            + item_text(x));
    }
}

proof fn lemma_elems_push(l: Seq<PItem>, x: PItem)
    ensures
        elems_text(l.push(x)) == elems_text(l) + (if l.len() == 0 {
            Seq::<u8>::empty()
        } else {
            seq![44u8]
        }) + item_text(x),
{
    if l.len() == 0 {
        assert(l.push(x).subrange(1, 1) =~= Seq::<PItem>::empty());
        assert(l.push(x)[0] == x);
        assert(rest_text(Seq::<PItem>::empty()) == Seq::<u8>::empty());
        assert(elems_text(l.push(x)) =~= item_text(x));
        assert(elems_text(l) + Seq::<u8>::empty() + item_text(x) =~= item_text(x));
    } else {
        let tail = l.subrange(1, l.len() as int);
        assert(l.push(x).subrange(1, l.len() + 1int) =~= tail.push(x));
        lemma_rest_push(tail, x);
        assert(l.push(x)[0] == l[0]);
        assert(elems_text(l.push(x)) == item_text(l[0]) + rest_text(tail.push(x)));
        assert(elems_text(l.push(x)) =~= elems_text(l) + seq![44u8] + item_text(x));
    }
}

/// Appends the text of an item.
fn push_item(out: &mut Vec<u8>, it: &Item)
    ensures
        final(out)@ == old(out)@ + item_text(item_model(*it)),
    decreases it,
{
    match it {
        Item::Value(v) => push_decimal(out, *v),
        Item::Packet(k) => push_packet(out, k),
    }
}

/// Appends the text of a packet.
fn push_packet(out: &mut Vec<u8>, k: &Packet)
    ensures
        final(out)@ == old(out)@ + packet_text(packet_model(*k)),
    decreases k,
{
    let ghost start = out@;
    out.push(91u8);
    let mut i: usize = 0;
    assert(k.0@.subrange(0, 0) =~= Seq::<Item>::empty());
    while i < k.0.len()
        invariant
            i <= k.0.len(),
            out@ == start + seq![91u8] + elems_text(items_model(k.0@.subrange(0, i as int))),
        decreases k.0.len() - i,
    {
        let ghost done = items_model(k.0@.subrange(0, i as int));
        proof {
            assert(k.0@.subrange(0, i + 1).subrange(0, i as int) =~= k.0@.subrange(0, i as int));
            lemma_elems_push(done, item_model(k.0@[i as int]));
            assert(decreases_to!(k => k.0));
            assert(decreases_to!(k.0 => k.0@));
            assert(decreases_to!(k.0@ => k.0@[i as int]));
        }
        if i > 0 {
            out.push(44u8);
        }
        push_item(out, &k.0[i]);
        proof {
            assert(items_model(k.0@.subrange(0, i + 1)) == done.push(item_model(k.0@[i as int])));
            assert(out@ =~= start + seq![91u8] + elems_text(items_model(k.0@.subrange(0, i + 1))));
        }
        i = i + 1;
    }
    out.push(93u8);
    assert(k.0@.subrange(0, k.0@.len() as int) =~= k.0@);
    assert(out@ =~= start + packet_text(packet_model(*k)));
}

impl Packet {
    /// The packet's text: its items in brackets, separated by commas, bytes
    /// in decimal.
    pub fn render(&self) -> (r: Vec<u8>)
        ensures
            r@ == packet_text(packet_model(*self)),
    {
        let mut out: Vec<u8> = Vec::new();
        push_packet(&mut out, self);
        assert(out@ =~= packet_text(packet_model(*self)));
        out
    }
}

} // verus!
