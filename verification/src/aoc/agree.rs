//! The two readers of the rules read the same rules from well-formed rule
//! lines: a colour of two lower-case words, ` bags contain `, then either
//! `no other bags` or items such as `2 muted yellow bags` separated by
//! `, `, and a final `.`. Colour words may not begin with `bag`; on such
//! words the readers differ (the slow one deletes ` bag` wherever it
//! occurs).

use vstd::prelude::*;
use crate::bytes::{
    all_digits,
    ascii,
    decimal,
    digits_value,
    ends_with,
    find,
    first_at,
    is_digit,
    lemma_decimal,
    lemma_first_at_unique,
    occurs_at,
    parse_i32_spec,
    replace,
    split,
    split_once,
    trim_end_matches,
    unsigned_part,
};
use crate::aoc::bags::{count_for, holders_of, SpecItem};

verus! {

// ---------------------------------------------------------------------------
// Well-formed lines
// ---------------------------------------------------------------------------

/// A lower-case ASCII letter.
pub open spec fn is_letter(b: u8) -> bool {
    97 <= b <= 122
}

/// A word of a colour: lower-case letters, at least one, not beginning
/// with `bag`.
pub open spec fn colour_word(w: Seq<u8>) -> bool {
    &&& w.len() > 0
    &&& forall|i: int| 0 <= i < w.len() ==> #[trigger] is_letter(w[i])
    &&& !(w.len() >= 3 && w[0] == 98u8 && w[1] == 97u8 && w[2] == 103u8)
}

/// A colour of two words.
pub open spec fn colour(a: Seq<u8>, b: Seq<u8>) -> Seq<u8> {
    a + seq![32u8] + b
}

/// ` bags` if `plural`, else ` bag`.
pub open spec fn bag_noun(plural: bool) -> Seq<u8> {
    if plural {
        seq![32u8, 98u8, 97u8, 103u8, 115u8]
    } else {
        seq![32u8, 98u8, 97u8, 103u8]
    }
}

/// ` bag` after a count of one, else ` bags`.
pub open spec fn bag_word(n: nat) -> Seq<u8> {
    bag_noun(n != 1)
}

/// An item: a count, then a colour, then ` bags` if `plural`, else ` bag`.
pub open spec fn item_text_as(it: (nat, Seq<u8>, Seq<u8>), plural: bool) -> Seq<u8> {
    decimal(it.0) + seq![32u8] + colour(it.1, it.2) + bag_noun(plural)
}

/// An item: a count, then a colour, then ` bag` or ` bags` as the count
/// asks.
pub open spec fn item_line(it: (nat, Seq<u8>, Seq<u8>)) -> Seq<u8> {
    item_text_as(it, it.0 != 1)
}

/// A well-formed item: a count that fits in 32 bits and two colour words.
pub open spec fn good_item(it: (nat, Seq<u8>, Seq<u8>)) -> bool {
    it.0 <= i32::MAX && colour_word(it.1) && colour_word(it.2)
}

/// What both readers make of a well-formed item.
pub open spec fn item_value(it: (nat, Seq<u8>, Seq<u8>)) -> SpecItem {
    (it.0 as i32, colour(it.1, it.2))
}

/// Items, each after `, `.
pub open spec fn rest_line(items: Seq<(nat, Seq<u8>, Seq<u8>)>) -> Seq<u8>
    decreases items.len(),
{
    if items.len() == 0 {
        seq![]
    } else {
        seq![44u8, 32u8] + item_line(items[0]) + rest_line(items.subrange(1, items.len() as int))
    }
}

/// Items separated by `, `.
pub open spec fn items_line(items: Seq<(nat, Seq<u8>, Seq<u8>)>) -> Seq<u8> {
    if items.len() == 0 {
        seq![]
    } else {
        item_line(items[0]) + rest_line(items.subrange(1, items.len() as int))
    }
}

/// The words between a rule's colour and its contents.
pub open spec fn contain_word() -> Seq<u8> {
    seq![32u8, 98u8, 97u8, 103u8, 115u8, 32u8, 99u8, 111u8, 110u8, 116u8, 97u8, 105u8, 110u8, 32u8]
}

/// The contents of a bag that holds no other bags.
pub open spec fn no_other_bags() -> Seq<u8> {
    seq![110u8, 111u8, 32u8, 111u8, 116u8, 104u8, 101u8, 114u8, 32u8, 98u8, 97u8, 103u8, 115u8]
}

/// A rule line.
pub open spec fn rule_line(a: Seq<u8>, b: Seq<u8>, items: Seq<(nat, Seq<u8>, Seq<u8>)>) -> Seq<u8> {
    colour(a, b) + contain_word() + (if items.len() == 0 {
        no_other_bags()
    } else {
        items_line(items)
    }) + seq![46u8]
}

/// A well-formed rule: two colour words and well-formed items.
pub open spec fn good_rule(a: Seq<u8>, b: Seq<u8>, items: Seq<(nat, Seq<u8>, Seq<u8>)>) -> bool {
    colour_word(a) && colour_word(b) && forall|i: int| 0 <= i < items.len() ==> #[trigger] good_item(items[i])
}

/// What both readers make of a well-formed rule.
pub open spec fn rule_value(a: Seq<u8>, b: Seq<u8>, items: Seq<(nat, Seq<u8>, Seq<u8>)>) -> (
    Seq<u8>,
    Option<Seq<SpecItem>>,
) {
    (colour(a, b), if items.len() == 0 {
        None
    } else {
        Some(items.map_values(|it: (nat, Seq<u8>, Seq<u8>)| item_value(it)))
    })
}

// ---------------------------------------------------------------------------
// Literals and searching
// ---------------------------------------------------------------------------

proof fn lemma_literals()
    ensures
        ascii(" "@) == seq![32u8],
        ascii("s"@) == seq![115u8],
        ascii("."@) == seq![46u8],
        ascii(", "@) == seq![44u8, 32u8],
        ascii(" bag"@) == seq![32u8, 98u8, 97u8, 103u8],
        ascii(" bags"@) == seq![32u8, 98u8, 97u8, 103u8, 115u8],
        ascii(" bags contain "@) == contain_word(),
        ascii("no other bags"@) == no_other_bags(),
        ascii("no other bags."@) == no_other_bags().push(46u8),
{
    reveal_strlit(" ");
    reveal_strlit("s");
    reveal_strlit(".");
    reveal_strlit(", ");
    reveal_strlit(" bag");
    reveal_strlit(" bags");
    reveal_strlit(" bags contain ");
    reveal_strlit("no other bags");
    reveal_strlit("no other bags.");
    assert(ascii(" "@) =~= seq![32u8]);
    assert(ascii("s"@) =~= seq![115u8]);
    assert(ascii("."@) =~= seq![46u8]);
    assert(ascii(", "@) =~= seq![44u8, 32u8]);
    assert(ascii(" bag"@) =~= seq![32u8, 98u8, 97u8, 103u8]);
    assert(ascii(" bags"@) =~= seq![32u8, 98u8, 97u8, 103u8, 115u8]);
    assert(ascii(" bags contain "@) =~= contain_word());
    assert(ascii("no other bags"@) =~= no_other_bags());
    assert(ascii("no other bags."@) =~= no_other_bags().push(46u8));
}

/// The first occurrence is where the pattern occurs with none before it.
proof fn lemma_find_at(s: Seq<u8>, p: Seq<u8>, k: int)
    requires
        occurs_at(s, p, k),
        forall|i: int| 0 <= i < k ==> !#[trigger] occurs_at(s, p, i),
    ensures
        find(s, p) == Some(k),
{
    assert(first_at(s, p, k));
    let j = choose|j: int| #[trigger] first_at(s, p, j);
    lemma_first_at_unique(s, p, j, k);
}

/// A pattern that occurs nowhere is not found.
proof fn lemma_find_none(s: Seq<u8>, p: Seq<u8>)
    requires
        forall|i: int| !#[trigger] occurs_at(s, p, i),
    ensures
        find(s, p) is None,
{
    if exists|i: int| #[trigger] first_at(s, p, i) {
        let j = choose|j: int| #[trigger] first_at(s, p, j);
        assert(occurs_at(s, p, j));
    }
}

/// A pattern occurs at `i` only where its bytes are.
proof fn lemma_occurs_byte(s: Seq<u8>, p: Seq<u8>, i: int, j: int)
    requires
        occurs_at(s, p, i),
        0 <= j < p.len(),
    ensures
        s[i + j] == p[j],
{
    assert(s.subrange(i, i + p.len())[j] == p[j]);
}

/// A pattern that begins with a space and then `bag` does not occur at a
/// space followed by a colour word that ends the text or is followed by a
/// byte that is no letter.
proof fn lemma_word_blocks_bag(s: Seq<u8>, i: int, w: Seq<u8>, p: Seq<u8>)
    requires
        0 <= i,
        i + 1 + w.len() <= s.len(),
        s.subrange(i + 1, i + 1 + w.len()) == w,
        colour_word(w),
        i + 1 + w.len() == s.len() || !is_letter(s[i + 1 + w.len()]),
        p.len() >= 4,
        p[1] == 98u8,
        p[2] == 97u8,
        p[3] == 103u8,
    ensures
        !occurs_at(s, p, i),
{
    if occurs_at(s, p, i) {
        lemma_occurs_byte(s, p, i, 1);
        lemma_occurs_byte(s, p, i, 2);
        lemma_occurs_byte(s, p, i, 3);
        assert(s.subrange(i + 1, i + 1 + w.len())[0] == s[i + 1]);
        if w.len() >= 3 {
            assert(s.subrange(i + 1, i + 1 + w.len())[1] == s[i + 2]);
            assert(s.subrange(i + 1, i + 1 + w.len())[2] == s[i + 3]);
        } else if w.len() == 2 {
            assert(s.subrange(i + 1, i + 1 + w.len())[1] == s[i + 2]);
            assert(!is_letter(s[i + 3]));
        } else {
            assert(!is_letter(s[i + 2]));
        }
    }
}

/// A text ends with a single byte when its last byte is that byte.
proof fn lemma_ends_with_byte(s: Seq<u8>, c: u8)
    ensures
        ends_with(s, seq![c]) <==> (s.len() > 0 && s.last() == c),
{
    if s.len() > 0 {
        assert(s.subrange(s.len() - 1, s.len() as int) =~= seq![s.last()]);
        if ends_with(s, seq![c]) {
            assert(s.subrange(s.len() - 1, s.len() as int)[0] == c);
        }
    }
}

/// A space found where the first space is.
proof fn lemma_first_space(s: Seq<u8>, k: int)
    requires
        0 <= k < s.len(),
        s[k] == 32u8,
        forall|j: int| 0 <= j < k ==> s[j] != 32u8,
    ensures
        find(s, seq![32u8]) == Some(k),
{
    assert(s.subrange(k, k + 1) =~= seq![32u8]);
    assert forall|i: int| 0 <= i < k implies !#[trigger] occurs_at(s, seq![32u8], i) by {
        if occurs_at(s, seq![32u8], i) {
            lemma_occurs_byte(s, seq![32u8], i, 0);
        }
    }
    lemma_find_at(s, seq![32u8], k);
}

/// A text without spaces has no space to find.
proof fn lemma_no_space(s: Seq<u8>)
    requires
        forall|j: int| 0 <= j < s.len() ==> s[j] != 32u8,
    ensures
        find(s, seq![32u8]) is None,
{
    assert forall|i: int| !#[trigger] occurs_at(s, seq![32u8], i) by {
        if occurs_at(s, seq![32u8], i) {
            lemma_occurs_byte(s, seq![32u8], i, 0);
        }
    }
    lemma_find_none(s, seq![32u8]);
}

/// Nothing is found in an empty text, so nothing is replaced in it.
proof fn lemma_replace_empty(p: Seq<u8>, t: Seq<u8>)
    requires
        p.len() > 0,
    ensures
        replace(Seq::<u8>::empty(), p, t) == Seq::<u8>::empty(),
{
    assert forall|i: int| !#[trigger] occurs_at(Seq::<u8>::empty(), p, i) by {}
    lemma_find_none(Seq::<u8>::empty(), p);
}

/// Three space-free pieces joined by single spaces split into the pieces.
#[verifier::spinoff_prover]
#[verifier::rlimit(30)]
proof fn lemma_split_three(d: Seq<u8>, a: Seq<u8>, b: Seq<u8>)
    requires
        d.len() > 0,
        a.len() > 0,
        b.len() > 0,
        forall|j: int| 0 <= j < d.len() ==> d[j] != 32u8,
        forall|j: int| 0 <= j < a.len() ==> a[j] != 32u8,
        forall|j: int| 0 <= j < b.len() ==> b[j] != 32u8,
    ensures
        split(d + seq![32u8] + a + seq![32u8] + b, seq![32u8]) == seq![d, a, b],
{
    let v = d + seq![32u8] + a + seq![32u8] + b;
    lemma_first_space(v, d.len() as int);
    let w = v.subrange(d.len() + 1int, v.len() as int);
    assert(w =~= a + seq![32u8] + b);
    lemma_first_space(w, a.len() as int);
    let x = w.subrange(a.len() + 1int, w.len() as int);
    assert(x =~= b);
    lemma_no_space(b);
    assert(v.subrange(0, d.len() as int) =~= d);
    assert(w.subrange(0, a.len() as int) =~= a);
    assert(split(x, seq![32u8]) == seq![x]);
    assert(split(w, seq![32u8]) =~= seq![a] + seq![b]);
    assert(split(v, seq![32u8]) =~= seq![d] + seq![a, b]);
}

/// The count of an item, written in decimal, is read back.
proof fn lemma_read_count(n: nat)
    requires
        n <= i32::MAX,
    ensures
        parse_i32_spec(decimal(n)) == Some(n as i32),
        decimal(n).len() > 0,
        forall|j: int| 0 <= j < decimal(n).len() ==> #[trigger] is_digit(decimal(n)[j]),
{
    lemma_decimal(n);
    let d = decimal(n);
    assert(is_digit(d[0]));
    assert(unsigned_part(d) == d);
}

/// The bytes of a well-formed item.
#[verifier::spinoff_prover]
#[verifier::rlimit(30)]
proof fn lemma_item_shape(it: (nat, Seq<u8>, Seq<u8>), plural: bool)
    requires
        good_item(it),
    ensures
        item_text_as(it, plural) == decimal(it.0) + seq![32u8] + it.1 + seq![32u8] + it.2 + bag_noun(plural),
        forall|j: int| 0 <= j < item_text_as(it, plural).len() ==> #[trigger] item_text_as(it, plural)[j] != 44u8
            && item_text_as(it, plural)[j] != 46u8,
        item_text_as(it, plural).len() > 0,
        is_digit(item_text_as(it, plural)[0]),
        item_text_as(it, plural).last() == 103u8 || item_text_as(it, plural).last() == 115u8,
{
    let t = item_text_as(it, plural);
    lemma_read_count(it.0);
    assert(t =~= decimal(it.0) + seq![32u8] + it.1 + seq![32u8] + it.2 + bag_noun(plural));
    let d = decimal(it.0).len();
    let la = it.1.len();
    let lb = it.2.len();
    assert forall|j: int| 0 <= j < t.len() implies #[trigger] t[j] != 44u8 && t[j] != 46u8 by {
        if j < d {
            assert(is_digit(decimal(it.0)[j]));
        } else if d < j < d + 1 + la {
            assert(is_letter(it.1[j - d - 1]));
        } else if d + 1 + la < j < d + 2 + la + lb {
            assert(is_letter(it.2[j - d - 2 - la]));
        }
    }
}

/// A word of an item's colour: at least one byte, no space, not beginning
/// with `bag`.
pub open spec fn item_word(w: Seq<u8>) -> bool {
    &&& w.len() > 0
    &&& forall|i: int| 0 <= i < w.len() ==> #[trigger] w[i] != 32u8
    &&& !(w.len() >= 3 && w[0] == 98u8 && w[1] == 97u8 && w[2] == 103u8)
}

/// An item written with the count text `c`: the count, a space, the colour
/// words `a` and `b` with a space between, then ` bags` if `plural`, else
/// ` bag`.
pub open spec fn item_text_of(c: Seq<u8>, a: Seq<u8>, b: Seq<u8>, plural: bool) -> Seq<u8> {
    c + seq![32u8] + a + seq![32u8] + b + bag_noun(plural)
}

/// The item without its bag word.
pub open spec fn item_words_of(c: Seq<u8>, a: Seq<u8>, b: Seq<u8>) -> Seq<u8> {
    c + seq![32u8] + a + seq![32u8] + b
}

/// A count text holds no space.
proof fn lemma_count_text(c: Seq<u8>)
    requires
        parse_i32_spec(c) is Some,
    ensures
        c.len() > 0,
        forall|j: int| 0 <= j < c.len() ==> c[j] != 32u8,
{
    let d = unsigned_part(c);
    assert forall|j: int| 0 <= j < c.len() implies c[j] != 32u8 by {
        if c[0] == 43u8 || c[0] == 45u8 {
            if j > 0 {
                assert(c[j] == d[j - 1]);
                assert(is_digit(d[j - 1]));
            }
        } else {
            assert(d == c);
            assert(is_digit(d[j]));
        }
    }
}

/// A colour word is a word of an item.
proof fn lemma_colour_word_is_item_word(w: Seq<u8>)
    requires
        colour_word(w),
    ensures
        item_word(w),
{
    assert forall|i: int| 0 <= i < w.len() implies #[trigger] w[i] != 32u8 by {
        assert(is_letter(w[i]));
    }
}

/// A pattern that begins with a space and then `bag` does not occur at a
/// space followed by a word of an item that ends the text or is followed by
/// a space.
proof fn lemma_item_word_blocks_bag(s: Seq<u8>, i: int, w: Seq<u8>, p: Seq<u8>)
    requires
        0 <= i,
        i + 1 + w.len() <= s.len(),
        s.subrange(i + 1, i + 1 + w.len()) == w,
        item_word(w),
        i + 1 + w.len() == s.len() || s[i + 1 + w.len()] == 32u8,
        p.len() >= 4,
        p[1] == 98u8,
        p[2] == 97u8,
        p[3] == 103u8,
    ensures
        !occurs_at(s, p, i),
{
    if occurs_at(s, p, i) {
        lemma_occurs_byte(s, p, i, 1);
        lemma_occurs_byte(s, p, i, 2);
        lemma_occurs_byte(s, p, i, 3);
        assert(s.subrange(i + 1, i + 1 + w.len())[0] == s[i + 1]);
        if w.len() >= 3 {
            assert(s.subrange(i + 1, i + 1 + w.len())[1] == s[i + 2]);
            assert(s.subrange(i + 1, i + 1 + w.len())[2] == s[i + 3]);
        } else if w.len() == 2 {
            assert(s.subrange(i + 1, i + 1 + w.len())[1] == s[i + 2]);
        }
    }
}

/// The fast reader reads an item made of a count text and two words.
#[verifier::spinoff_prover]
#[verifier::rlimit(30)]
proof fn lemma_fast_item_of(c: Seq<u8>, a: Seq<u8>, b: Seq<u8>, plural: bool)
    requires
        parse_i32_spec(c) is Some,
        item_word(a),
        item_word(b),
    ensures
        crate::aoc::fast::item_spec(item_text_of(c, a, b, plural)) == Some(
            (parse_i32_spec(c).unwrap(), colour(a, b)),
        ),
{
    lemma_literals();
    lemma_count_text(c);
    let t = item_text_of(c, a, b, plural);
    let d = c.len() as int;
    assert forall|j: int| 0 <= j < d implies t[j] != 32u8 by {
        assert(t[j] == c[j]);
    }
    assert(t[d] == 32u8);
    lemma_first_space(t, d);
    let rest = t.subrange(d + 1, t.len() as int);
    assert(t.subrange(0, d) =~= c);
    assert(rest =~= a + seq![32u8] + b + bag_noun(plural));
    let y = a + seq![32u8] + b + seq![32u8, 98u8, 97u8, 103u8];
    // trailing `s` removed
    lemma_ends_with_byte(rest, 115u8);
    lemma_ends_with_byte(y, 115u8);
    assert(y.last() == 103u8);
    if !plural {
        assert(rest == y);
        assert(!ends_with(rest, seq![115u8]));
        assert(trim_end_matches(rest, seq![115u8]) == rest);
    } else {
        assert(rest.last() == 115u8);
        assert(ends_with(rest, seq![115u8]));
        assert(rest.subrange(0, rest.len() - 1) =~= y);
        assert(!ends_with(y, seq![115u8]));
        assert(trim_end_matches(y, seq![115u8]) == y);
        assert(trim_end_matches(rest, seq![115u8]) == y);
    }
    // trailing ` bag` removed once
    let z = a + seq![32u8] + b;
    assert(y.subrange(y.len() - 4, y.len() as int) =~= seq![32u8, 98u8, 97u8, 103u8]);
    assert(ends_with(y, seq![32u8, 98u8, 97u8, 103u8]));
    assert(y.subrange(0, y.len() - 4) =~= z);
    if ends_with(z, seq![32u8, 98u8, 97u8, 103u8]) {
        let k = z.len() - 4;
        assert(z.subrange(k, z.len() as int)[0] == z[k]);
        assert(z[k] == 32u8);
        if k < a.len() {
            assert(a[k] != 32u8);
        } else if k > a.len() {
            assert(b[k - a.len() - 1] != 32u8);
        } else {
            assert(b.len() == 3);
            assert(z.subrange(k, z.len() as int)[1] == b[0]);
            assert(z.subrange(k, z.len() as int)[2] == b[1]);
            assert(z.subrange(k, z.len() as int)[3] == b[2]);
        }
    }
    assert(trim_end_matches(z, seq![32u8, 98u8, 97u8, 103u8]) == z);
    assert(trim_end_matches(y, seq![32u8, 98u8, 97u8, 103u8]) == z);
}

/// The fast reader reads a well-formed item.
proof fn lemma_fast_item(it: (nat, Seq<u8>, Seq<u8>), plural: bool)
    requires
        good_item(it),
    ensures
        crate::aoc::fast::item_spec(item_text_as(it, plural)) == Some(item_value(it)),
{
    lemma_read_count(it.0);
    lemma_colour_word_is_item_word(it.1);
    lemma_colour_word_is_item_word(it.2);
    assert(item_text_as(it, plural) =~= item_text_of(decimal(it.0), it.1, it.2, plural));
    lemma_fast_item_of(decimal(it.0), it.1, it.2, plural);
}

/// The spaces of an item: after the count, between the colour words, and
/// before ` bag`; a pattern that begins with a space and then `bag` occurs
/// only at the last of them.
#[verifier::spinoff_prover]
#[verifier::rlimit(30)]
proof fn lemma_item_bag_only_last(
    c: Seq<u8>,
    a: Seq<u8>,
    b: Seq<u8>,
    plural: bool,
    p: Seq<u8>,
    i: int,
)
    requires
        parse_i32_spec(c) is Some,
        item_word(a),
        item_word(b),
        p.len() >= 4,
        p[0] == 32u8,
        p[1] == 98u8,
        p[2] == 97u8,
        p[3] == 103u8,
        occurs_at(item_text_of(c, a, b, plural), p, i),
    ensures
        i == c.len() + a.len() + b.len() + 2,
{
    lemma_count_text(c);
    let t = item_text_of(c, a, b, plural);
    let d = c.len() as int;
    let sp2 = d + 1 + a.len();
    let sp3 = sp2 + 1 + b.len();
    lemma_occurs_byte(t, p, i, 0);
    assert(t.subrange(d + 1, d + 1 + a.len()) =~= a);
    assert(t.subrange(sp2 + 1, sp2 + 1 + b.len()) =~= b);
    assert(t[sp2] == 32u8);
    assert(t[sp3] == 32u8);
    if i < d {
        assert(t[i] == c[i]);
    } else if i == d {
        lemma_item_word_blocks_bag(t, d, a, p);
    } else if i < sp2 {
        assert(t[i] == a[i - d - 1]);
    } else if i == sp2 {
        lemma_item_word_blocks_bag(t, sp2, b, p);
    } else if i < sp3 {
        assert(t[i] == b[i - sp2 - 1]);
    } else if i > sp3 {
        lemma_occurs_byte(t, p, i, 1);
        lemma_occurs_byte(t, p, i, 2);
        lemma_occurs_byte(t, p, i, 3);
    }
}

/// The item with ` bags` removed: only a plural item has it.
#[verifier::spinoff_prover]
#[verifier::rlimit(30)]
proof fn lemma_slow_remove_bags(c: Seq<u8>, a: Seq<u8>, b: Seq<u8>, plural: bool)
    requires
        parse_i32_spec(c) is Some,
        item_word(a),
        item_word(b),
    ensures
        replace(item_text_of(c, a, b, plural), seq![32u8, 98u8, 97u8, 103u8, 115u8], seq![])
            == if !plural {
            item_text_of(c, a, b, plural)
        } else {
            item_words_of(c, a, b)
        },
{
    let t = item_text_of(c, a, b, plural);
    let bags = seq![32u8, 98u8, 97u8, 103u8, 115u8];
    let sp3: int = c.len() + a.len() + b.len() + 2int;
    lemma_replace_empty(bags, seq![]);
    if !plural {
        assert forall|i: int| !#[trigger] occurs_at(t, bags, i) by {
            if occurs_at(t, bags, i) {
                lemma_item_bag_only_last(c, a, b, plural, bags, i);
            }
        }
        lemma_find_none(t, bags);
    } else {
        assert(t.subrange(sp3, sp3 + 5) =~= bags);
        assert forall|i: int| 0 <= i < sp3 implies !#[trigger] occurs_at(t, bags, i) by {
            if occurs_at(t, bags, i) {
                lemma_item_bag_only_last(c, a, b, plural, bags, i);
            }
        }
        lemma_find_at(t, bags, sp3);
        assert(t.subrange(sp3 + 5, t.len() as int) =~= Seq::<u8>::empty());
        assert(t.subrange(0, sp3) =~= item_words_of(c, a, b));
        assert(replace(t, bags, seq![]) =~= item_words_of(c, a, b));
    }
}

/// The item with ` bag` removed, once ` bags` has been.
#[verifier::spinoff_prover]
#[verifier::rlimit(30)]
proof fn lemma_slow_remove_bag(c: Seq<u8>, a: Seq<u8>, b: Seq<u8>, plural: bool)
    requires
        parse_i32_spec(c) is Some,
        item_word(a),
        item_word(b),
    ensures
        replace(
            if !plural {
                item_text_of(c, a, b, plural)
            } else {
                item_words_of(c, a, b)
            },
            seq![32u8, 98u8, 97u8, 103u8],
            seq![],
        ) == item_words_of(c, a, b),
{
    lemma_count_text(c);
    let t = item_text_of(c, a, b, plural);
    let v = item_words_of(c, a, b);
    let d = c.len() as int;
    let bag = seq![32u8, 98u8, 97u8, 103u8];
    let sp3 = d + a.len() + b.len() + 2;
    lemma_replace_empty(bag, seq![]);
    if !plural {
        assert(t.subrange(sp3, sp3 + 4) =~= bag);
        assert forall|i: int| 0 <= i < sp3 implies !#[trigger] occurs_at(t, bag, i) by {
            if occurs_at(t, bag, i) {
                lemma_item_bag_only_last(c, a, b, plural, bag, i);
            }
        }
        lemma_find_at(t, bag, sp3);
        assert(t.subrange(sp3 + 4, t.len() as int) =~= Seq::<u8>::empty());
        assert(t.subrange(0, sp3) =~= v);
        assert(replace(t, bag, seq![]) =~= v);
    } else {
        assert forall|i: int| !#[trigger] occurs_at(v, bag, i) by {
            if occurs_at(v, bag, i) {
                let sp2 = d + 1 + a.len();
                lemma_occurs_byte(v, bag, i, 0);
                assert(v.subrange(d + 1, d + 1 + a.len()) =~= a);
                assert(v.subrange(sp2 + 1, sp2 + 1 + b.len()) =~= b);
                assert(v[sp2] == 32u8);
                if i < d {
                    assert(v[i] == c[i]);
                } else if i == d {
                    lemma_item_word_blocks_bag(v, d, a, bag);
                } else if i < sp2 {
                    assert(v[i] == a[i - d - 1]);
                } else if i == sp2 {
                    lemma_item_word_blocks_bag(v, sp2, b, bag);
                } else {
                    assert(v[i] == b[i - sp2 - 1]);
                }
            }
        }
        lemma_find_none(v, bag);
    }
}

/// The slow reader's words of an item: the count and the two colour words.
#[verifier::spinoff_prover]
#[verifier::rlimit(30)]
proof fn lemma_slow_words(c: Seq<u8>, a: Seq<u8>, b: Seq<u8>, plural: bool)
    requires
        parse_i32_spec(c) is Some,
        item_word(a),
        item_word(b),
    ensures
        crate::aoc::slow::item_words(item_text_of(c, a, b, plural)) == seq![c, a, b],
{
    lemma_literals();
    lemma_count_text(c);
    lemma_slow_remove_bags(c, a, b, plural);
    lemma_slow_remove_bag(c, a, b, plural);
    lemma_split_three(c, a, b);
}

/// The slow reader reads an item made of a count text and two words.
#[verifier::spinoff_prover]
#[verifier::rlimit(30)]
proof fn lemma_slow_item_of(c: Seq<u8>, a: Seq<u8>, b: Seq<u8>, plural: bool)
    requires
        parse_i32_spec(c) is Some,
        item_word(a),
        item_word(b),
    ensures
        crate::aoc::slow::item_spec(item_text_of(c, a, b, plural)) == Some(
            (parse_i32_spec(c).unwrap(), colour(a, b)),
        ),
{
    lemma_literals();
    lemma_slow_words(c, a, b, plural);
}

/// The slow reader reads a well-formed item.
proof fn lemma_slow_item(it: (nat, Seq<u8>, Seq<u8>), plural: bool)
    requires
        good_item(it),
    ensures
        crate::aoc::slow::item_spec(item_text_as(it, plural)) == Some(item_value(it)),
{
    lemma_read_count(it.0);
    lemma_colour_word_is_item_word(it.1);
    lemma_colour_word_is_item_word(it.2);
    assert(item_text_as(it, plural) =~= item_text_of(decimal(it.0), it.1, it.2, plural));
    lemma_slow_item_of(decimal(it.0), it.1, it.2, plural);
}

/// Both readers read an item the same: a count written as any signed 32-bit
/// integer, a colour of two words that hold no space and do not begin with
/// `bag`, then ` bag` or ` bags`. They read its count and its colour.
pub proof fn lemma_item_readers_agree(c: Seq<u8>, a: Seq<u8>, b: Seq<u8>, plural: bool)
    requires
        parse_i32_spec(c) is Some,
        item_word(a),
        item_word(b),
    ensures
        crate::aoc::fast::item_spec(item_text_of(c, a, b, plural)) == Some(
            (parse_i32_spec(c).unwrap(), colour(a, b)),
        ),
        crate::aoc::slow::item_spec(item_text_of(c, a, b, plural)) == Some(
            (parse_i32_spec(c).unwrap(), colour(a, b)),
        ),
{
    lemma_fast_item_of(c, a, b, plural);
    lemma_slow_item_of(c, a, b, plural);
}

/// The texts of the items.
pub open spec fn item_lines(items: Seq<(nat, Seq<u8>, Seq<u8>)>) -> Seq<Seq<u8>> {
    items.map_values(|it: (nat, Seq<u8>, Seq<u8>)| item_line(it))
}

/// The bytes of items separated by `, `: no full stop, a digit first, and
/// the first item then `, ` and the others.
#[verifier::spinoff_prover]
#[verifier::rlimit(30)]
proof fn lemma_items_line_shape(items: Seq<(nat, Seq<u8>, Seq<u8>)>)
    requires
        items.len() > 0,
        forall|i: int| 0 <= i < items.len() ==> #[trigger] good_item(items[i]),
    ensures
        forall|j: int| 0 <= j < items_line(items).len() ==> #[trigger] items_line(items)[j] != 46u8,
        items_line(items).len() > 0,
        is_digit(items_line(items)[0]),
        items.len() == 1 ==> items_line(items) == item_line(items[0]),
        items.len() > 1 ==> items_line(items) == item_line(items[0]) + seq![44u8, 32u8] + items_line(
            items.subrange(1, items.len() as int),
        ),
    decreases items.len(),
{
    let t0 = item_line(items[0]);
    let tail = items.subrange(1, items.len() as int);
    let l = items_line(items);
    assert(good_item(items[0]));
    lemma_item_shape(items[0], items[0].0 != 1);
    if tail.len() == 0 {
        assert(rest_line(tail) == Seq::<u8>::empty());
        assert(l =~= t0);
    } else {
        assert forall|i: int| 0 <= i < tail.len() implies #[trigger] good_item(tail[i]) by {
            assert(tail[i] == items[i + 1]);
        }
        lemma_items_line_shape(tail);
        let lt = items_line(tail);
        assert(tail.subrange(1, tail.len() as int) =~= items.subrange(2, items.len() as int));
        assert(rest_line(tail) =~= seq![44u8, 32u8] + lt);
        assert(l =~= t0 + seq![44u8, 32u8] + lt);
        let k = t0.len() as int;
        assert forall|j: int| 0 <= j < l.len() implies #[trigger] l[j] != 46u8 by {
            if j < k {
                assert(t0[j] != 46u8);
            } else if j >= k + 2 {
                assert(lt[j - k - 2] != 46u8);
            }
        }
    }
}

/// The texts of the items: the first one's, then the others'.
proof fn lemma_item_lines_cons(items: Seq<(nat, Seq<u8>, Seq<u8>)>)
    requires
        items.len() > 0,
    ensures
        item_lines(items) == seq![item_line(items[0])] + item_lines(items.subrange(1, items.len() as int)),
{
    assert(item_lines(items) =~= seq![item_line(items[0])] + item_lines(
        items.subrange(1, items.len() as int),
    ));
}

/// A text without `, ` splits into itself.
proof fn lemma_split_no_comma(l: Seq<u8>)
    requires
        forall|j: int| 0 <= j < l.len() ==> #[trigger] l[j] != 44u8,
    ensures
        split(l, seq![44u8, 32u8]) == seq![l],
{
    let sep = seq![44u8, 32u8];
    assert forall|i: int| !#[trigger] occurs_at(l, sep, i) by {
        if occurs_at(l, sep, i) {
            lemma_occurs_byte(l, sep, i, 0);
        }
    }
    lemma_find_none(l, sep);
}

/// A comma-free text, `, `, then more: split at the `, `.
proof fn lemma_split_at_comma(t: Seq<u8>, rest: Seq<u8>)
    requires
        forall|j: int| 0 <= j < t.len() ==> #[trigger] t[j] != 44u8,
    ensures
        split(t + seq![44u8, 32u8] + rest, seq![44u8, 32u8]) == seq![t] + split(rest, seq![44u8, 32u8]),
{
    let sep = seq![44u8, 32u8];
    let l = t + sep + rest;
    let k = t.len() as int;
    assert(l.subrange(k, k + 2) =~= sep);
    assert forall|i: int| 0 <= i < k implies !#[trigger] occurs_at(l, sep, i) by {
        if occurs_at(l, sep, i) {
            lemma_occurs_byte(l, sep, i, 0);
            assert(l[i] == t[i]);
        }
    }
    lemma_find_at(l, sep, k);
    assert(l.subrange(0, k) =~= t);
    assert(l.subrange(k + 2, l.len() as int) =~= rest);
}

/// Items separated by `, ` split back into the items.
#[verifier::spinoff_prover]
#[verifier::rlimit(30)]
proof fn lemma_split_items(items: Seq<(nat, Seq<u8>, Seq<u8>)>)
    requires
        items.len() > 0,
        forall|i: int| 0 <= i < items.len() ==> #[trigger] good_item(items[i]),
    ensures
        split(items_line(items), seq![44u8, 32u8]) == item_lines(items),
    decreases items.len(),
{
    let t0 = item_line(items[0]);
    let tail = items.subrange(1, items.len() as int);
    assert(good_item(items[0]));
    lemma_item_shape(items[0], items[0].0 != 1);
    lemma_items_line_shape(items);
    lemma_item_lines_cons(items);
    if tail.len() == 0 {
        lemma_split_no_comma(t0);
        assert(item_lines(tail) =~= Seq::<Seq<u8>>::empty());
    } else {
        assert forall|i: int| 0 <= i < tail.len() implies #[trigger] good_item(tail[i]) by {
            assert(tail[i] == items[i + 1]);
        }
        lemma_split_items(tail);
        lemma_split_at_comma(t0, items_line(tail));
    }
}

/// The fast reader reads well-formed items.
#[verifier::spinoff_prover]
#[verifier::rlimit(30)]
proof fn lemma_fast_items(items: Seq<(nat, Seq<u8>, Seq<u8>)>)
    requires
        forall|i: int| 0 <= i < items.len() ==> #[trigger] good_item(items[i]),
    ensures
        crate::aoc::fast::items_spec(item_lines(items)) == Some(
            items.map_values(|it: (nat, Seq<u8>, Seq<u8>)| item_value(it)),
        ),
    decreases items.len(),
{
    if items.len() > 0 {
        let init = items.drop_last();
        assert forall|i: int| 0 <= i < init.len() implies #[trigger] good_item(init[i]) by {
            assert(init[i] == items[i]);
        }
        lemma_fast_items(init);
        assert(good_item(items.last()));
        lemma_fast_item(items.last(), items.last().0 != 1);
        assert(item_lines(items).drop_last() =~= item_lines(init));
        assert(items.map_values(|it: (nat, Seq<u8>, Seq<u8>)| item_value(it)) =~= init.map_values(
            |it: (nat, Seq<u8>, Seq<u8>)| item_value(it),
        ).push(item_value(items.last())));
    } else {
        assert(item_lines(items) =~= Seq::<Seq<u8>>::empty());
        assert(items.map_values(|it: (nat, Seq<u8>, Seq<u8>)| item_value(it)) =~= Seq::<
            SpecItem,
        >::empty());
    }
}

/// The slow reader reads well-formed items.
#[verifier::spinoff_prover]
#[verifier::rlimit(30)]
proof fn lemma_slow_items(items: Seq<(nat, Seq<u8>, Seq<u8>)>)
    requires
        forall|i: int| 0 <= i < items.len() ==> #[trigger] good_item(items[i]),
    ensures
        crate::aoc::slow::items_spec(item_lines(items)) == Some(
            items.map_values(|it: (nat, Seq<u8>, Seq<u8>)| item_value(it)),
        ),
    decreases items.len(),
{
    if items.len() > 0 {
        let init = items.drop_last();
        assert forall|i: int| 0 <= i < init.len() implies #[trigger] good_item(init[i]) by {
            assert(init[i] == items[i]);
        }
        lemma_slow_items(init);
        assert(good_item(items.last()));
        lemma_slow_item(items.last(), items.last().0 != 1);
        assert(item_lines(items).drop_last() =~= item_lines(init));
        assert(items.map_values(|it: (nat, Seq<u8>, Seq<u8>)| item_value(it)) =~= init.map_values(
            |it: (nat, Seq<u8>, Seq<u8>)| item_value(it),
        ).push(item_value(items.last())));
    } else {
        assert(item_lines(items) =~= Seq::<Seq<u8>>::empty());
        assert(items.map_values(|it: (nat, Seq<u8>, Seq<u8>)| item_value(it)) =~= Seq::<
            SpecItem,
        >::empty());
    }
}

/// ` bags contain ` does not start inside an item that is followed by `,`
/// or `.`.
#[verifier::spinoff_prover]
#[verifier::rlimit(30)]
proof fn lemma_no_contain_in_item(s: Seq<u8>, k: int, it: (nat, Seq<u8>, Seq<u8>), i: int)
    requires
        good_item(it),
        0 <= k,
        k + item_line(it).len() < s.len(),
        s.subrange(k, k + item_line(it).len()) == item_line(it),
        s[k + item_line(it).len()] == 44u8 || s[k + item_line(it).len()] == 46u8,
        k <= i < k + item_line(it).len(),
    ensures
        !occurs_at(s, contain_word(), i),
{
    let p = contain_word();
    let t = item_line(it);
    lemma_item_shape(it, it.0 != 1);
    lemma_read_count(it.0);
    let dec = decimal(it.0);
    let a = it.1;
    let b = it.2;
    let d = dec.len() as int;
    let sp2 = d + 1 + a.len();
    let sp3 = sp2 + 1 + b.len();
    assert forall|j: int| 0 <= j < t.len() implies s[k + j] == #[trigger] t[j] by {
        assert(s.subrange(k, k + t.len())[j] == t[j]);
    }
    if occurs_at(s, p, i) {
        lemma_occurs_byte(s, p, i, 0);
        let j = i - k;
        assert(s[i] == t[j]);
        if j < d {
            assert(is_digit(dec[j]));
        } else if j == d {
            assert(s.subrange(i + 1, i + 1 + a.len()) =~= a) by {
                assert forall|m: int| 0 <= m < a.len() implies s.subrange(i + 1, i + 1 + a.len())[m]
                    == a[m] by {
                    assert(t[d + 1 + m] == a[m]);
                }
            }
            assert(t[sp2] == 32u8);
            lemma_word_blocks_bag(s, i, a, p);
        } else if j < sp2 {
            assert(is_letter(a[j - d - 1]));
        } else if j == sp2 {
            assert(s.subrange(i + 1, i + 1 + b.len()) =~= b) by {
                assert forall|m: int| 0 <= m < b.len() implies s.subrange(i + 1, i + 1 + b.len())[m]
                    == b[m] by {
                    assert(t[sp2 + 1 + m] == b[m]);
                }
            }
            assert(t[sp3] == 32u8);
            lemma_word_blocks_bag(s, i, b, p);
        } else if j < sp3 {
            assert(is_letter(b[j - sp2 - 1]));
        } else if j == sp3 {
            lemma_occurs_byte(s, p, i, 4);
            lemma_occurs_byte(s, p, i, 5);
            if it.0 == 1 {
                assert(i + 4 == k + t.len());
            } else {
                assert(i + 5 == k + t.len());
            }
        } else {
            assert(t[j] != 32u8);
        }
    }
}

/// ` bags contain ` does not start inside items followed by `.`, nor at
/// the `.`.
#[verifier::spinoff_prover]
#[verifier::rlimit(30)]
proof fn lemma_no_contain_in_items(s: Seq<u8>, k: int, items: Seq<(nat, Seq<u8>, Seq<u8>)>)
    requires
        items.len() > 0,
        forall|i: int| 0 <= i < items.len() ==> #[trigger] good_item(items[i]),
        0 <= k,
        k + items_line(items).len() < s.len(),
        s.subrange(k, k + items_line(items).len()) == items_line(items),
        s[k + items_line(items).len()] == 46u8,
    ensures
        forall|i: int| k <= i <= k + items_line(items).len() ==> !#[trigger] occurs_at(s, contain_word(), i),
    decreases items.len(),
{
    let p = contain_word();
    let l = items_line(items);
    let t0 = item_line(items[0]);
    let tail = items.subrange(1, items.len() as int);
    assert(good_item(items[0]));
    lemma_items_line_shape(items);
    lemma_item_shape(items[0], items[0].0 != 1);
    assert forall|j: int| 0 <= j < l.len() implies s[k + j] == #[trigger] l[j] by {
        assert(s.subrange(k, k + l.len())[j] == l[j]);
    }
    assert(s.subrange(k, k + t0.len()) =~= t0) by {
        assert forall|m: int| 0 <= m < t0.len() implies s.subrange(k, k + t0.len())[m] == t0[m] by {
            assert(l[m] == t0[m]);
        }
    }
    if tail.len() == 0 {
        assert forall|i: int| k <= i <= k + l.len() implies !#[trigger] occurs_at(s, p, i) by {
            if i < k + l.len() {
                lemma_no_contain_in_item(s, k, items[0], i);
            } else if occurs_at(s, p, i) {
                lemma_occurs_byte(s, p, i, 0);
            }
        }
    } else {
        assert forall|i: int| 0 <= i < tail.len() implies #[trigger] good_item(tail[i]) by {
            assert(tail[i] == items[i + 1]);
        }
        let lt = items_line(tail);
        let k2 = k + t0.len() + 2;
        lemma_items_line_shape(tail);
        assert(s.subrange(k2, k2 + lt.len()) =~= lt) by {
            assert forall|m: int| 0 <= m < lt.len() implies s.subrange(k2, k2 + lt.len())[m] == lt[m] by {
                assert(l[t0.len() + 2 + m] == lt[m]);
            }
        }
        lemma_no_contain_in_items(s, k2, tail);
        assert(l[t0.len() as int] == 44u8);
        assert(l[t0.len() + 1int] == 32u8);
        assert(l[t0.len() + 2int] == lt[0]);
        assert forall|i: int| k <= i <= k + l.len() implies !#[trigger] occurs_at(s, p, i) by {
            if i < k + t0.len() {
                lemma_no_contain_in_item(s, k, items[0], i);
            } else if i < k2 {
                if occurs_at(s, p, i) {
                    lemma_occurs_byte(s, p, i, 0);
                    lemma_occurs_byte(s, p, i, 1);
                }
            }
        }
    }
}

/// The contents of a rule line: `no other bags`, or its items.
pub open spec fn contents_line(items: Seq<(nat, Seq<u8>, Seq<u8>)>) -> Seq<u8> {
    if items.len() == 0 {
        no_other_bags()
    } else {
        items_line(items)
    }
}

/// ` bags contain ` does not start inside a colour that is followed by a
/// space.
proof fn lemma_not_in_colour(l: Seq<u8>, a: Seq<u8>, b: Seq<u8>, i: int)
    requires
        colour_word(a),
        colour_word(b),
        a.len() + 1 + b.len() < l.len(),
        forall|j: int| 0 <= j < a.len() ==> l[j] == #[trigger] a[j],
        l[a.len() as int] == 32u8,
        forall|j: int| 0 <= j < b.len() ==> l[a.len() + 1 + j] == #[trigger] b[j],
        l[a.len() + 1int + b.len()] == 32u8,
        0 <= i < a.len() + 1 + b.len(),
    ensures
        !occurs_at(l, contain_word(), i),
{
    let p = contain_word();
    if occurs_at(l, p, i) {
        lemma_occurs_byte(l, p, i, 0);
        if i < a.len() {
            assert(is_letter(a[i]));
        } else if i > a.len() {
            assert(is_letter(b[i - a.len() - 1]));
        } else {
            assert(l.subrange(i + 1, i + 1 + b.len()) =~= b);
            lemma_word_blocks_bag(l, i, b, p);
        }
    }
}

/// A colour, then ` bags contain `, then anything: the words are first
/// found right after the colour.
#[verifier::spinoff_prover]
#[verifier::rlimit(30)]
proof fn lemma_header(a: Seq<u8>, b: Seq<u8>, rest: Seq<u8>)
    requires
        colour_word(a),
        colour_word(b),
    ensures
        find(colour(a, b) + contain_word() + rest, contain_word()) == Some(colour(a, b).len() as int),
        (colour(a, b) + contain_word() + rest).subrange(0, colour(a, b).len() as int) == colour(a, b),
        (colour(a, b) + contain_word() + rest).subrange(
            colour(a, b).len() + 14int,
            (colour(a, b) + contain_word() + rest).len() as int,
        ) == rest,
{
    let p = contain_word();
    let c = colour(a, b);
    let l = c + p + rest;
    let k = c.len() as int;
    assert(k == a.len() + 1 + b.len());
    assert forall|j: int| 0 <= j < a.len() implies l[j] == #[trigger] a[j] by {
        assert(c[j] == a[j]);
    }
    assert(l[a.len() as int] == c[a.len() as int]);
    assert forall|j: int| 0 <= j < b.len() implies l[a.len() + 1 + j] == #[trigger] b[j] by {
        assert(c[a.len() + 1 + j] == b[j]);
    }
    assert(l[k] == p[0]);
    assert forall|i: int| 0 <= i < k implies !#[trigger] occurs_at(l, p, i) by {
        lemma_not_in_colour(l, a, b, i);
    }
    assert(l.subrange(k, k + 14) =~= p);
    lemma_find_at(l, p, k);
    assert(l.subrange(0, k) =~= c);
    assert(l.subrange(k + 14, l.len() as int) =~= rest);
}

/// A rule line is its colour, ` bags contain `, its contents and a full
/// stop.
proof fn lemma_rule_header(a: Seq<u8>, b: Seq<u8>, items: Seq<(nat, Seq<u8>, Seq<u8>)>)
    requires
        colour_word(a),
        colour_word(b),
    ensures
        rule_line(a, b, items) == colour(a, b) + contain_word() + contents_line(items).push(46u8),
        find(rule_line(a, b, items), contain_word()) == Some(colour(a, b).len() as int),
        rule_line(a, b, items).subrange(0, colour(a, b).len() as int) == colour(a, b),
        rule_line(a, b, items).subrange(
            colour(a, b).len() + 14int,
            rule_line(a, b, items).len() as int,
        ) == contents_line(items).push(46u8),
{
    assert(rule_line(a, b, items) =~= colour(a, b) + contain_word() + contents_line(items).push(46u8));
    lemma_header(a, b, contents_line(items).push(46u8));
}

/// The contents and full stop of a rule line, without the full stop.
proof fn lemma_contents_trimmed(items: Seq<(nat, Seq<u8>, Seq<u8>)>)
    requires
        forall|i: int| 0 <= i < items.len() ==> #[trigger] good_item(items[i]),
    ensures
        trim_end_matches(contents_line(items).push(46u8), seq![46u8]) == contents_line(items),
        items.len() > 0 ==> is_digit(contents_line(items)[0]),
{
    let body = contents_line(items);
    let r = body.push(46u8);
    lemma_ends_with_byte(r, 46u8);
    lemma_ends_with_byte(body, 46u8);
    assert(r.subrange(0, r.len() - 1) =~= body);
    if items.len() > 0 {
        lemma_items_line_shape(items);
        assert(body.last() != 46u8);
    } else {
        assert(body.last() == 115u8);
    }
    assert(trim_end_matches(body, seq![46u8]) == body);
}

/// The fast reader reads a well-formed rule.
#[verifier::spinoff_prover]
#[verifier::rlimit(30)]
proof fn lemma_fast_rule(a: Seq<u8>, b: Seq<u8>, items: Seq<(nat, Seq<u8>, Seq<u8>)>)
    requires
        good_rule(a, b, items),
    ensures
        crate::aoc::fast::rule_spec(rule_line(a, b, items)) == Some(rule_value(a, b, items)),
{
    lemma_literals();
    lemma_rule_header(a, b, items);
    lemma_contents_trimmed(items);
    let body = contents_line(items);
    let r = body.push(46u8);
    if items.len() > 0 {
        assert(r[0] == body[0]);
        assert(no_other_bags().push(46u8)[0] == 110u8);
        assert(r != no_other_bags().push(46u8));
        lemma_split_items(items);
        lemma_fast_items(items);
    }
}

/// ` bags contain ` does not occur in a rule's contents and full stop.
#[verifier::spinoff_prover]
#[verifier::rlimit(30)]
proof fn lemma_contents_without_header(items: Seq<(nat, Seq<u8>, Seq<u8>)>)
    requires
        forall|i: int| 0 <= i < items.len() ==> #[trigger] good_item(items[i]),
    ensures
        split(contents_line(items).push(46u8), contain_word()) == seq![contents_line(items).push(46u8)],
{
    let p = contain_word();
    let body = contents_line(items);
    let r = body.push(46u8);
    if items.len() == 0 {
        assert forall|i: int| !#[trigger] occurs_at(r, p, i) by {
            if occurs_at(r, p, i) {
                lemma_occurs_byte(r, p, i, 0);
                assert(r[0] == 110u8);
            }
        }
    } else {
        lemma_items_line_shape(items);
        assert(r.subrange(0, body.len() as int) =~= body);
        lemma_no_contain_in_items(r, 0, items);
        assert forall|i: int| !#[trigger] occurs_at(r, p, i) by {
            if 0 <= i <= body.len() {
                assert(!occurs_at(r, p, i));
            }
        }
    }
    lemma_find_none(r, p);
}

/// The slow reader reads a well-formed rule.
#[verifier::spinoff_prover]
#[verifier::rlimit(30)]
proof fn lemma_slow_rule(a: Seq<u8>, b: Seq<u8>, items: Seq<(nat, Seq<u8>, Seq<u8>)>)
    requires
        good_rule(a, b, items),
    ensures
        crate::aoc::slow::rule_spec(rule_line(a, b, items)) == Some(rule_value(a, b, items)),
{
    lemma_literals();
    lemma_rule_header(a, b, items);
    lemma_contents_trimmed(items);
    lemma_contents_without_header(items);
    let p = contain_word();
    let l = rule_line(a, b, items);
    let body = contents_line(items);
    let r = body.push(46u8);
    assert(split(l, p) =~= seq![colour(a, b), r]);
    if items.len() > 0 {
        assert(body[0] != no_other_bags()[0]);
        lemma_split_items(items);
        lemma_slow_items(items);
    }
}

/// Both readers read a well-formed rule line the same: its colour, and
/// either no contents or its items with their counts and colours.
pub proof fn lemma_readers_agree(a: Seq<u8>, b: Seq<u8>, items: Seq<(nat, Seq<u8>, Seq<u8>)>)
    requires
        good_rule(a, b, items),
    ensures
        crate::aoc::fast::rule_spec(rule_line(a, b, items)) == Some(rule_value(a, b, items)),
        crate::aoc::slow::rule_spec(rule_line(a, b, items)) == Some(rule_value(a, b, items)),
{
    lemma_fast_rule(a, b, items);
    lemma_slow_rule(a, b, items);
}

/// A rule: the two words of its colour and its items.
pub type RuleWords = (Seq<u8>, Seq<u8>, Seq<(nat, Seq<u8>, Seq<u8>)>);

/// The lines of the rules.
pub open spec fn rule_lines(rules: Seq<RuleWords>) -> Seq<Seq<u8>> {
    rules.map_values(|r: RuleWords| rule_line(r.0, r.1, r.2))
}

/// What both readers make of the rules.
pub open spec fn rule_values(rules: Seq<RuleWords>) -> Seq<(Seq<u8>, Option<Seq<SpecItem>>)> {
    rules.map_values(|r: RuleWords| rule_value(r.0, r.1, r.2))
}

/// Both readers read the same rules from well-formed rule lines.
pub proof fn lemma_readers_agree_on_lines(rules: Seq<RuleWords>)
    requires
        forall|i: int| 0 <= i < rules.len() ==> #[trigger] good_rule(rules[i].0, rules[i].1, rules[i].2),
    ensures
        crate::aoc::fast::rules_spec(rule_lines(rules)) == Some(rule_values(rules)),
        crate::aoc::slow::rules_spec(rule_lines(rules)) == Some(rule_values(rules)),
    decreases rules.len(),
{
    if rules.len() == 0 {
        assert(rule_lines(rules) =~= Seq::<Seq<u8>>::empty());
        assert(rule_values(rules) =~= Seq::<(Seq<u8>, Option<Seq<SpecItem>>)>::empty());
    } else {
        let init = rules.drop_last();
        let last = rules.last();
        assert forall|i: int| 0 <= i < init.len() implies #[trigger] good_rule(
            init[i].0,
            init[i].1,
            init[i].2,
        ) by {
            assert(init[i] == rules[i]);
        }
        lemma_readers_agree_on_lines(init);
        assert(good_rule(last.0, last.1, last.2));
        lemma_readers_agree(last.0, last.1, last.2);
        assert(rule_lines(rules).drop_last() =~= rule_lines(init));
        assert(rule_lines(rules).last() == rule_line(last.0, last.1, last.2));
        assert(rule_values(rules) =~= rule_values(init).push(rule_value(last.0, last.1, last.2)));
    }
}

/// Both readers read the same rules from an input whose lines are
/// well-formed rule lines, so the two computations answer alike.
pub proof fn lemma_readers_agree_on_input(data: Seq<u8>, rules: Seq<RuleWords>)
    requires
        crate::bytes::lines(data) == rule_lines(rules),
        forall|i: int| 0 <= i < rules.len() ==> #[trigger] good_rule(rules[i].0, rules[i].1, rules[i].2),
    ensures
        crate::aoc::fast::input_spec(data) == crate::aoc::slow::input_spec(data),
        crate::aoc::fast::input_spec(data) == Some(rule_values(rules)),
{
    lemma_readers_agree_on_lines(rules);
}

/// On an input whose lines are well-formed rule lines, the two readers'
/// answers agree: the same colours eventually hold any colour, and one bag
/// of any colour holds the same number of bags.
pub proof fn lemma_answers_agree(data: Seq<u8>, rules: Seq<RuleWords>)
    requires
        crate::bytes::lines(data) == rule_lines(rules),
        forall|i: int| 0 <= i < rules.len() ==> #[trigger] good_rule(rules[i].0, rules[i].1, rules[i].2),
    ensures
        crate::aoc::fast::input_spec(data) matches Some(f) && crate::aoc::slow::input_spec(data) matches Some(g)
            && (forall|c: Seq<u8>| #[trigger] holders_of(f, c) == holders_of(g, c))
            && (forall|c: Seq<u8>| #[trigger] count_for(f, c) == count_for(g, c)),
{
    lemma_readers_agree_on_input(data, rules);
}

} // verus!
