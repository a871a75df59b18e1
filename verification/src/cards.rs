//! The data model of the deck-of-cards service: card values and suits, the
//! two-character card codes (`AS` for the ace of spades, `0H` for the ten of
//! hearts), deck identifiers of twelve ASCII characters, the service's
//! answers, and the building, shuffling and drawing of decks.

use vstd::prelude::*;
use vstd::multiset::Multiset;
use vstd::string::StrSliceExecFns;
use crate::bytes::{ascii, ascii_bytes, decimal, push_bytes, push_decimal};
use crate::chance::{random_below, shuffle};

verus! {

// ---------------------------------------------------------------------------
// Values, suits and codes
// ---------------------------------------------------------------------------

/// The value of a card.
#[derive(Clone, Copy, Debug, PartialEq, Eq, Structural)]
pub enum Value {
    Ace,
    Value2,
    Value3,
    Value4,
    Value5,
    Value6,
    Value7,
    Value8,
    Value9,
    Value10,
    Jack,
    Queen,
    King,
}

/// The suit of a card.
#[derive(Clone, Copy, Debug, PartialEq, Eq, Structural)]
pub enum Suit {
    Clubs,
    Diamonds,
    Spades,
    Hearts,
}

/// A card, as its value and suit.
#[derive(Clone, Copy, Debug, PartialEq, Eq, Structural)]
pub struct Code {
    pub value: Value,
    pub suit: Suit,
}

/// The values in the order in which a deck holds them.
pub open spec fn all_values() -> Seq<Value> {
    seq![
        Value::Ace,
        Value::Value2,
        Value::Value3,
        Value::Value4,
        Value::Value5,
        Value::Value6,
        Value::Value7,
        Value::Value8,
        Value::Value9,
        Value::Value10,
        Value::Jack,
        Value::Queen,
        Value::King,
    ]
}

/// The suits in the order in which a deck holds them.
pub open spec fn all_suits() -> Seq<Suit> {
    seq![Suit::Clubs, Suit::Diamonds, Suit::Spades, Suit::Hearts]
}

/// The character that stands for a value in a code; the ten is `0`.
pub open spec fn value_symbol(v: Value) -> char {
    match v {
        Value::Ace => 'A',
        Value::Value2 => '2',
        Value::Value3 => '3',
        Value::Value4 => '4',
        Value::Value5 => '5',
        Value::Value6 => '6',
        Value::Value7 => '7',
        Value::Value8 => '8',
        Value::Value9 => '9',
        Value::Value10 => '0',
        Value::Jack => 'J',
        Value::Queen => 'Q',
        Value::King => 'K',
    }
}

/// The character that stands for a suit in a code.
pub open spec fn suit_symbol(s: Suit) -> char {
    match s {
        Suit::Clubs => 'C',
        Suit::Diamonds => 'D',
        Suit::Spades => 'S',
        Suit::Hearts => 'H',
    }
}

/// The value a character stands for, if any.
pub open spec fn value_of_symbol(c: char) -> Option<Value> {
    if c == 'A' {
        Some(Value::Ace)
    } else if c == '2' {
        Some(Value::Value2)
    } else if c == '3' {
        Some(Value::Value3)
    } else if c == '4' {
        Some(Value::Value4)
    } else if c == '5' {
        Some(Value::Value5)
    } else if c == '6' {
        Some(Value::Value6)
    } else if c == '7' {
        Some(Value::Value7)
    } else if c == '8' {
        Some(Value::Value8)
    } else if c == '9' {
        Some(Value::Value9)
    } else if c == '0' {
        Some(Value::Value10)
    } else if c == 'J' {
        Some(Value::Jack)
    } else if c == 'Q' {
        Some(Value::Queen)
    } else if c == 'K' {
        Some(Value::King)
    } else {
        None
    }
}

/// The suit a character stands for, if any.
pub open spec fn suit_of_symbol(c: char) -> Option<Suit> {
    if c == 'C' {
        Some(Suit::Clubs)
    } else if c == 'D' {
        Some(Suit::Diamonds)
    } else if c == 'H' {
        Some(Suit::Hearts)
    } else if c == 'S' {
        Some(Suit::Spades)
    } else {
        None
    }
}

/// The two characters of a card's code: its value's, then its suit's.
pub open spec fn code_text(c: Code) -> Seq<char> {
    seq![value_symbol(c.value), suit_symbol(c.suit)]
}

/// Why a text is no card code.
#[derive(Clone, Copy, Debug, PartialEq, Eq, Structural)]
pub enum CodeError {
    /// The text has this many characters (the first characters being
    /// valid); a code has two.
    InvalidLength(usize),
    /// This character stands for no value (first place) or no suit (second
    /// place).
    InvalidChar(char),
}

/// The card a text names, read character by character: a value's
/// character, a suit's character, and nothing after them. The first fault
/// met is the one reported.
pub open spec fn code_of_text(s: Seq<char>) -> Result<Code, CodeError> {
    if s.len() == 0 {
        Err(CodeError::InvalidLength(0))
    } else {
        match value_of_symbol(s[0]) {
            None => Err(CodeError::InvalidChar(s[0])),
            Some(value) => if s.len() == 1 {
                Err(CodeError::InvalidLength(1))
            } else {
                match suit_of_symbol(s[1]) {
                    None => Err(CodeError::InvalidChar(s[1])),
                    Some(suit) => if s.len() > 2 {
                        Err(CodeError::InvalidLength(s.len() as usize))
                    } else {
                        Ok(Code { value, suit })
                    },
                }
            },
        }
    }
}

impl Value {
    /// All values, ace first, king last.
    pub fn all() -> (r: Vec<Value>)
        ensures
            r@ == all_values(),
    {
        let r: Vec<Value> = vec![
            Value::Ace,
            Value::Value2,
            Value::Value3,
            Value::Value4,
            Value::Value5,
            Value::Value6,
            Value::Value7,
            Value::Value8,
            Value::Value9,
            Value::Value10,
            Value::Jack,
            Value::Queen,
            Value::King,
        ];
        assert(r@ =~= all_values());
        r
    }

    /// The value a character stands for in a code.
    pub fn from_symbol(c: char) -> (r: Option<Value>)
        ensures
            r == value_of_symbol(c),
    {
        if c == 'A' {
            Some(Value::Ace)
        } else if c == '2' {
            Some(Value::Value2)
        } else if c == '3' {
            Some(Value::Value3)
        } else if c == '4' {
            Some(Value::Value4)
        } else if c == '5' {
            Some(Value::Value5)
        } else if c == '6' {
            Some(Value::Value6)
        } else if c == '7' {
            Some(Value::Value7)
        } else if c == '8' {
            Some(Value::Value8)
        } else if c == '9' {
            Some(Value::Value9)
        } else if c == '0' {
            Some(Value::Value10)
        } else if c == 'J' {
            Some(Value::Jack)
        } else if c == 'Q' {
            Some(Value::Queen)
        } else if c == 'K' {
            Some(Value::King)
        } else {
            None
        }
    }

    /// The character that stands for the value in a code.
    pub fn symbol(&self) -> (r: char)
        ensures
            r == value_symbol(*self),
    {
        match self {
            Value::Ace => 'A',
            Value::Value2 => '2',
            Value::Value3 => '3',
            Value::Value4 => '4',
            Value::Value5 => '5',
            Value::Value6 => '6',
            Value::Value7 => '7',
            Value::Value8 => '8',
            Value::Value9 => '9',
            Value::Value10 => '0',
            Value::Jack => 'J',
            Value::Queen => 'Q',
            Value::King => 'K',
        }
    }
}

impl Suit {
    /// All suits: clubs, diamonds, spades, hearts.
    pub fn all() -> (r: Vec<Suit>)
        ensures
            r@ == all_suits(),
    {
        let r: Vec<Suit> = vec![Suit::Clubs, Suit::Diamonds, Suit::Spades, Suit::Hearts];
        assert(r@ =~= all_suits());
        r
    }

    /// The suit a character stands for in a code.
    pub fn from_symbol(c: char) -> (r: Option<Suit>)
        ensures
            r == suit_of_symbol(c),
    {
        if c == 'C' {
            Some(Suit::Clubs)
        } else if c == 'D' {
            Some(Suit::Diamonds)
        } else if c == 'H' {
            Some(Suit::Hearts)
        } else if c == 'S' {
            Some(Suit::Spades)
        } else {
            None
        }
    }

    /// The character that stands for the suit in a code.
    pub fn symbol(&self) -> (r: char)
        ensures
            r == suit_symbol(*self),
    {
        match self {
            Suit::Clubs => 'C',
            Suit::Diamonds => 'D',
            Suit::Spades => 'S',
            Suit::Hearts => 'H',
        }
    }
}

impl Code {
    /// The card's code: two characters.
    pub fn to_chars(&self) -> (r: (char, char))
        ensures
            seq![r.0, r.1] == code_text(*self),
    {
        (self.value.symbol(), self.suit.symbol())
    }

    /// Reads a card's code.
    pub fn from_text(v: &str) -> (r: Result<Code, CodeError>)
        ensures
            r == code_of_text(v@),
    {
        let n: usize = v.unicode_len();
        if n == 0 {
            return Err(CodeError::InvalidLength(0));
        }
        let first: char = v.get_char(0);
        let value: Value = match Value::from_symbol(first) {
            None => return Err(CodeError::InvalidChar(first)),
            Some(x) => x,
        };
        if n == 1 {
            return Err(CodeError::InvalidLength(1));
        }
        let second: char = v.get_char(1);
        let suit: Suit = match Suit::from_symbol(second) {
            None => return Err(CodeError::InvalidChar(second)),
            Some(x) => x,
        };
        if n > 2 {
            return Err(CodeError::InvalidLength(n));
        }
        Ok(Code { value, suit })
    }
}

/// Reading a card's code gives back the card.
pub proof fn lemma_code_roundtrip(c: Code)
    ensures
        code_of_text(code_text(c)) == Ok::<Code, CodeError>(c),
{
}

/// A text read as a card is that card's code: each card has one code.
pub proof fn lemma_code_text_unique(s: Seq<char>, c: Code)
    requires
        code_of_text(s) == Ok::<Code, CodeError>(c),
    ensures
        s == code_text(c),
{
    assert(s =~= code_text(c));
}

/// The characters of the card values: a card from two to nine is written
/// as its number, the ten as `0`, the ace, jack, queen and king as `A`,
/// `J`, `Q` and `K`; each of these characters reads as the value it names,
/// in the deck's order of values, and no other character names a value.
pub proof fn lemma_value_characters()
    ensures
        value_symbol(Value::Ace) == 'A',
        value_symbol(Value::Value2) == '2',
        value_symbol(Value::Value3) == '3',
        value_symbol(Value::Value4) == '4',
        value_symbol(Value::Value5) == '5',
        value_symbol(Value::Value6) == '6',
        value_symbol(Value::Value7) == '7',
        value_symbol(Value::Value8) == '8',
        value_symbol(Value::Value9) == '9',
        value_symbol(Value::Value10) == '0',
        value_symbol(Value::Jack) == 'J',
        value_symbol(Value::Queen) == 'Q',
        value_symbol(Value::King) == 'K',
        forall|k: int| 1 <= k <= 8 ==> value_symbol(#[trigger] all_values()[k]) == (k + 49) as char,
        forall|c: char|
            '2' <= c <= '9' ==> #[trigger] value_of_symbol(c) == Some(all_values()[c as int - 49]),
        value_of_symbol('A') == Some(Value::Ace),
        value_of_symbol('0') == Some(Value::Value10),
        value_of_symbol('J') == Some(Value::Jack),
        value_of_symbol('Q') == Some(Value::Queen),
        value_of_symbol('K') == Some(Value::King),
        forall|c: char| #[trigger] value_of_symbol(c) matches Some(v) ==> value_symbol(v) == c,
{
}

/// The characters of the suits: `C` clubs, `D` diamonds, `S` spades, `H`
/// hearts; each reads as the suit it names, and no other character names a
/// suit.
pub proof fn lemma_suit_characters()
    ensures
        suit_symbol(Suit::Clubs) == 'C',
        suit_symbol(Suit::Diamonds) == 'D',
        suit_symbol(Suit::Spades) == 'S',
        suit_symbol(Suit::Hearts) == 'H',
        suit_of_symbol('C') == Some(Suit::Clubs),
        suit_of_symbol('D') == Some(Suit::Diamonds),
        suit_of_symbol('S') == Some(Suit::Spades),
        suit_of_symbol('H') == Some(Suit::Hearts),
        forall|c: char| #[trigger] suit_of_symbol(c) matches Some(s) ==> suit_symbol(s) == c,
{
}

/// A code of a digit from `2` to `9` and a suit's character names the card
/// of that number in that suit.
pub proof fn lemma_number_codes(d: char, s: Suit)
    requires
        '2' <= d <= '9',
    ensures
        code_of_text(seq![d, suit_symbol(s)]) == Ok::<Code, CodeError>(
            Code { value: all_values()[d as int - 49], suit: s },
        ),
        value_index(all_values()[d as int - 49]) + 1 == d as int - 48,
{
}

// ---------------------------------------------------------------------------
// Deck identifiers
// ---------------------------------------------------------------------------

/// The identifier of a deck: twelve ASCII characters.
#[derive(Clone, Copy)]
pub struct DeckID([u8; 12]);

impl View for DeckID {
    type V = Seq<u8>;

    closed spec fn view(&self) -> Seq<u8> {
        self.0@
    }
}

/// Every byte is an ASCII character.
pub open spec fn ascii_bytes_only(s: Seq<u8>) -> bool {
    forall|i: int| 0 <= i < s.len() ==> #[trigger] s[i] < 128
}

/// Why a text is no deck identifier.
#[derive(Clone, Copy, Debug, PartialEq, Eq, Structural)]
pub enum DeckIdError {
    /// The text holds a character outside ASCII.
    NotAscii,
    /// The text is ASCII with this many characters; an identifier has
    /// twelve.
    InvalidLength(usize),
}

/// The identifier a text spells, as its bytes: twelve ASCII characters.
pub open spec fn deck_id_of_text(s: Seq<char>) -> Result<Seq<u8>, DeckIdError> {
    if !vstd::utf8::is_ascii_chars(s) {
        Err(DeckIdError::NotAscii)
    } else if s.len() != 12 {
        Err(DeckIdError::InvalidLength(s.len() as usize))
    } else {
        Ok(ascii(s))
    }
}

/// The alphabet of new identifiers: lower-case letters and digits.
pub open spec fn id_alphabet() -> Seq<u8> {
    ascii("abcdefghijklmnopqrstuvwxyz0123456789"@)
}

/// A lower-case letter or a digit.
pub open spec fn lower_alnum(b: u8) -> bool {
    (97 <= b <= 122) || (48 <= b <= 57)
}

impl DeckID {
    #[verifier::type_invariant]
    spec fn inv(self) -> bool {
        ascii_bytes_only(self.0@)
    }

    /// Reads an identifier from a text.
    pub fn from_text(v: &str) -> (r: Result<DeckID, DeckIdError>)
        ensures
            match r {
                Ok(id) => deck_id_of_text(v@) == Ok::<Seq<u8>, DeckIdError>(id@),
                Err(e) => deck_id_of_text(v@) == Err::<Seq<u8>, DeckIdError>(e),
            },
    {
        if !v.is_ascii() {
            return Err(DeckIdError::NotAscii);
        }
        let b: &[u8] = ascii_bytes(v);
        if b.len() != 12 {
            return Err(DeckIdError::InvalidLength(b.len()));
        }
        let bytes: [u8; 12] = [b[0], b[1], b[2], b[3], b[4], b[5], b[6], b[7], b[8], b[9], b[10], b[11]];
        assert(bytes@ =~= b@);
        assert(ascii_bytes_only(bytes@)) by {
            assert forall|i: int| 0 <= i < bytes@.len() implies #[trigger] bytes@[i] < 128 by {
                assert(bytes@[i] == v@[i] as u8);
            }
        }
        Ok(DeckID(bytes))
    }

    /// The identifier's characters, as bytes.
    pub fn as_bytes(&self) -> (r: &[u8])
        ensures
            r@ == self@,
            r@.len() == 12,
            ascii_bytes_only(r@),
    {
        proof {
            use_type_invariant(self);
        }
        self.0.as_slice()
    }

    /// A new identifier of twelve lower-case letters and digits, each drawn
    /// at random from the alphabet of identifiers.
    pub fn random() -> (r: DeckID)
        ensures
            forall|i: int| 0 <= i < 12 ==> #[trigger] lower_alnum(r@[i]),
            exists|picks: Seq<u8>|
                picks.len() == 12 && (forall|i: int| 0 <= i < 12 ==> #[trigger] picks[i] < 36)
                    && r@ == picks.map_values(|p: u8| id_alphabet()[p as int]),
    {
        let mut picks: Vec<u8> = Vec::new();
        let mut i: usize = 0;
        while i < 12
            invariant
                i <= 12,
                picks.len() == i,
                forall|k: int| 0 <= k < i ==> #[trigger] picks@[k] < 36,
            decreases 12 - i,
        {
            let pick: u8 = random_below(36);
            picks.push(pick);
            i = i + 1;
        }
        DeckID::from_picks(picks.as_slice())
    }

    /// The identifier whose characters are the letters of the alphabet of
    /// identifiers at the picked positions.
    pub fn from_picks(picks: &[u8]) -> (r: DeckID)
        requires
            picks@.len() == 12,
            forall|i: int| 0 <= i < 12 ==> #[trigger] picks@[i] < 36,
        ensures
            r@ == picks@.map_values(|p: u8| id_alphabet()[p as int]),
            forall|i: int| 0 <= i < 12 ==> #[trigger] lower_alnum(r@[i]),
    {
        proof {
            reveal_strlit("abcdefghijklmnopqrstuvwxyz0123456789");
        }
        let alphabet: &[u8] = ascii_bytes("abcdefghijklmnopqrstuvwxyz0123456789");
        assert(forall|k: int| 0 <= k < 36 ==> #[trigger] lower_alnum(alphabet@[k]) && alphabet@[k] < 128);
        let mut bytes: [u8; 12] = [48u8, 48u8, 48u8, 48u8, 48u8, 48u8, 48u8, 48u8, 48u8, 48u8, 48u8, 48u8];
        let mut i: usize = 0;
        while i < 12
            invariant
                i <= 12,
                picks@.len() == 12,
                forall|k: int| 0 <= k < 12 ==> #[trigger] picks@[k] < 36,
                alphabet@ == id_alphabet(),
                alphabet@.len() == 36,
                forall|k: int| 0 <= k < 36 ==> #[trigger] lower_alnum(alphabet@[k]) && alphabet@[k] < 128,
                forall|k: int| 0 <= k < 12 ==> #[trigger] lower_alnum(bytes@[k]) && bytes@[k] < 128,
                forall|k: int| 0 <= k < i ==> #[trigger] bytes@[k] == id_alphabet()[picks@[k] as int],
            decreases 12 - i,
        {
            bytes[i] = alphabet[picks[i] as usize];
            i = i + 1;
        }
        assert(bytes@ =~= picks@.map_values(|p: u8| id_alphabet()[p as int]));
        assert(ascii_bytes_only(bytes@)) by {
            assert forall|k: int| 0 <= k < bytes@.len() implies #[trigger] bytes@[k] < 128 by {
                assert(lower_alnum(bytes@[k]));
            }
        }
        DeckID(bytes)
    }
}

/// An identifier's characters read back give the same identifier: every
/// text that spells twelve ASCII bytes is read as them.
pub proof fn lemma_deck_id_roundtrip(id: Seq<u8>)
    requires
        id.len() == 12,
        ascii_bytes_only(id),
    ensures
        deck_id_of_text(text_of(id)) == Ok::<Seq<u8>, DeckIdError>(id),
{
    let s = text_of(id);
    assert forall|i: int| 0 <= i < s.len() implies '\0' <= #[trigger] s[i] <= '\u{7f}' by {
        assert(id[i] < 128);
    }
    assert(ascii(s) =~= id);
}

/// The characters that ASCII bytes stand for.
pub open spec fn text_of(b: Seq<u8>) -> Seq<char> {
    b.map_values(|x: u8| x as char)
}

// ---------------------------------------------------------------------------
// The service's answers and requests
// ---------------------------------------------------------------------------

/// A request for cards asked for none.
#[derive(Clone, Copy, Debug, PartialEq, Eq, Structural)]
pub struct CantBeZeroError;

impl CantBeZeroError {
    /// The error's message.
    pub fn message(&self) -> (r: &'static str)
        ensures
            r@ == "cards retrieved can't be zero"@,
    {
        "cards retrieved can't be zero"
    }
}

/// The service's answer to a new deck.
#[derive(Clone, Copy)]
pub struct DeckInfo {
    pub success: bool,
    pub deck_id: DeckID,
    pub shuffled: bool,
    pub remaining: u8,
}

/// The query of a request for new decks: how many decks to shuffle
/// together, one if not given.
#[derive(Clone, Copy, Debug, PartialEq, Eq, Structural)]
pub struct NewDecksQuery {
    pub deck_count: Option<usize>,
}

/// The query of a request to draw cards: how many.
#[derive(Clone, Copy, Debug, PartialEq, Eq, Structural)]
pub struct DrawCardsQuery {
    pub count: usize,
}

impl NewDecksQuery {
    /// The number of decks asked for.
    pub open spec fn decks(self) -> nat {
        match self.deck_count {
            Some(n) => n as nat,
            None => 1,
        }
    }
}

/// The address at which `n` cards are drawn from a deck.
pub open spec fn draw_url(deck_id: Seq<u8>, n: u8) -> Seq<u8> {
    ascii("https://deckofcardsapi.com/api/deck/"@) + deck_id + ascii("/draw/?count="@) + decimal(
        n as nat,
    )
}

/// The address of the request that draws `n` cards from a deck; no
/// request is made for none.
pub fn draw_cards_url(deck_id: &DeckID, n: u8) -> (r: Result<Vec<u8>, CantBeZeroError>)
    ensures
        match r {
            Ok(url) => n != 0 && url@ == draw_url(deck_id@, n),
            Err(_) => n == 0,
        },
{
    if n == 0 {
        return Err(CantBeZeroError);
    }
    proof {
        reveal_strlit("https://deckofcardsapi.com/api/deck/");
        reveal_strlit("/draw/?count=");
    }
    let mut url: Vec<u8> = Vec::new();
    push_bytes(&mut url, ascii_bytes("https://deckofcardsapi.com/api/deck/"));
    push_bytes(&mut url, deck_id.as_bytes());
    push_bytes(&mut url, ascii_bytes("/draw/?count="));
    push_decimal(&mut url, n);
    assert(url@ =~= draw_url(deck_id@, n));
    Ok(url)
}

// ---------------------------------------------------------------------------
// Decks
// ---------------------------------------------------------------------------

/// A deck in order: the suits one after the other, each with its values
/// from ace to king.
pub open spec fn standard_deck() -> Seq<Code> {
    Seq::new(52, |i: int| Code { value: all_values()[i % 13], suit: all_suits()[i / 13] })
}

/// The place of a value in a deck's order of values.
pub open spec fn value_index(v: Value) -> int {
    match v {
        Value::Ace => 0,
        Value::Value2 => 1,
        Value::Value3 => 2,
        Value::Value4 => 3,
        Value::Value5 => 4,
        Value::Value6 => 5,
        Value::Value7 => 6,
        Value::Value8 => 7,
        Value::Value9 => 8,
        Value::Value10 => 9,
        Value::Jack => 10,
        Value::Queen => 11,
        Value::King => 12,
    }
}

/// The place of a suit in a deck's order of suits.
pub open spec fn suit_index(s: Suit) -> int {
    match s {
        Suit::Clubs => 0,
        Suit::Diamonds => 1,
        Suit::Spades => 2,
        Suit::Hearts => 3,
    }
}

proof fn lemma_orders(k: int, v: Value, s: Suit)
    ensures
        0 <= k < 13 ==> value_index(all_values()[k]) == k,
        0 <= k < 4 ==> suit_index(all_suits()[k]) == k,
        all_values()[value_index(v)] == v,
        all_suits()[suit_index(s)] == s,
        0 <= value_index(v) < 13,
        0 <= suit_index(s) < 4,
{
}

/// A deck holds every card exactly once.
pub proof fn lemma_deck_holds_each_card_once(c: Code)
    ensures
        standard_deck().to_multiset().count(c) == 1,
{
    let d = standard_deck();
    assert forall|i: int, j: int| 0 <= i < d.len() && 0 <= j < d.len() && i != j implies d[i]
        != d[j] by {
        lemma_orders(i % 13, c.value, c.suit);
        lemma_orders(j % 13, c.value, c.suit);
        lemma_orders(i / 13, c.value, c.suit);
        lemma_orders(j / 13, c.value, c.suit);
        assert(i == (i / 13) * 13 + i % 13);
        assert(j == (j / 13) * 13 + j % 13);
    }
    assert(d.no_duplicates());
    lemma_orders(0, c.value, c.suit);
    let k = suit_index(c.suit) * 13 + value_index(c.value);
    assert(k % 13 == value_index(c.value) && k / 13 == suit_index(c.suit));
    assert(d[k] == c);
    assert(d.contains(c));
    d.lemma_multiset_has_no_duplicates();
    d.to_multiset_ensures();
}

/// A stack of `count` decks holds every card `count` times.
pub proof fn lemma_decks_hold_each_card(count: nat, c: Code)
    ensures
        decks(count).to_multiset().count(c) == count,
    decreases count,
{
    if count == 0 {
        assert(decks(0).to_multiset() =~= Multiset::<Code>::empty()) by {
            Seq::<Code>::empty().to_multiset_ensures();
        }
    } else {
        lemma_decks_hold_each_card((count - 1) as nat, c);
        lemma_deck_holds_each_card_once(c);
        vstd::seq_lib::lemma_multiset_commutative(decks((count - 1) as nat), standard_deck());
    }
}

/// `count` decks in order, one after the other.
pub open spec fn decks(count: nat) -> Seq<Code>
    decreases count,
{
    if count == 0 {
        seq![]
    } else {
        decks((count - 1) as nat) + standard_deck()
    }
}

proof fn lemma_decks_len(count: nat)
    ensures
        decks(count).len() == count * 52,
    decreases count,
{
    if count > 0 {
        lemma_decks_len((count - 1) as nat);
        assert(count * 52 == (count - 1) * 52 + 52) by (nonlinear_arith);
    }
}

/// Appends a deck in order.
fn push_deck(cards: &mut Vec<Code>)
    ensures
        final(cards)@ == old(cards)@ + standard_deck(),
{
    let ghost start = cards@;
    let values: Vec<Value> = Value::all();
    let suits: Vec<Suit> = Suit::all();
    let mut s: usize = 0;
    assert(standard_deck().subrange(0, 0) =~= Seq::<Code>::empty());
    while s < 4
        invariant
            s <= 4,
            values@ == all_values(),
            suits@ == all_suits(),
            cards@ == start + standard_deck().subrange(0, s * 13),
        decreases 4 - s,
    {
        let mut v: usize = 0;
        while v < 13
            invariant
                s < 4,
                v <= 13,
                values@ == all_values(),
                suits@ == all_suits(),
                cards@ == start + standard_deck().subrange(0, s * 13 + v),
            decreases 13 - v,
        {
            let ghost k: int = s * 13 + v;
            assert(k % 13 == v as int && k / 13 == s as int) by (nonlinear_arith)
                requires
                    k == s * 13 + v,
                    v < 13,
            ;
            cards.push(Code { value: values[v], suit: suits[s] });
            assert(standard_deck().subrange(0, k + 1) =~= standard_deck().subrange(0, k).push(
                standard_deck()[k],
            ));
            assert(cards@ =~= start + standard_deck().subrange(0, k + 1));
            v = v + 1;
        }
        s = s + 1;
    }
    assert(standard_deck().subrange(0, 52) =~= standard_deck());
}

/// `count` decks in order, one after the other.
pub fn deck_cards(count: usize) -> (r: Vec<Code>)
    requires
        count * 52 <= usize::MAX,
    ensures
        r@ == decks(count as nat),
{
    let mut cards: Vec<Code> = Vec::new();
    let mut k: usize = 0;
    while k < count
        invariant
            k <= count,
            cards@ == decks(k as nat),
        decreases count - k,
    {
        push_deck(&mut cards);
        k = k + 1;
    }
    cards
}

/// The cards of a new shuffled stack: as many decks as the query asks
/// for, in a random order.
pub fn new_deck_cards(query: &NewDecksQuery) -> (r: Vec<Code>)
    requires
        query.decks() * 52 <= usize::MAX,
    ensures
        r@.to_multiset() == decks(query.decks()).to_multiset(),
        r@.len() == query.decks() * 52,
{
    let count: usize = match query.deck_count {
        Some(n) => n,
        None => 1,
    };
    let mut cards: Vec<Code> = deck_cards(count);
    shuffle(&mut cards);
    proof {
        lemma_decks_len(count as nat);
        cards@.to_multiset_ensures();
        decks(count as nat).to_multiset_ensures();
    }
    cards
}

/// The last `n` cards of a stack, taken from the top one by one: the last
/// card first.
pub fn pop_cards<T>(cards: Vec<T>, n: usize) -> (r: Vec<T>)
    requires
        n <= cards.len(),
    ensures
        r.len() == n,
        forall|i: int| 0 <= i < n ==> #[trigger] r@[i] == cards@[cards.len() - 1 - i],
{
    let ghost start = cards@;
    let mut rest: Vec<T> = cards;
    let mut taken: Vec<T> = Vec::new();
    let mut i: usize = 0;
    while i < n
        invariant
            i <= n,
            n <= start.len(),
            rest@ == start.subrange(0, start.len() - i),
            taken.len() == i,
            forall|j: int| 0 <= j < i ==> #[trigger] taken@[j] == start[start.len() - 1 - j],
        decreases n - i,
    {
        let c: T = rest.pop().unwrap();
        taken.push(c);
        i = i + 1;
    }
    taken
}

} // verus!
