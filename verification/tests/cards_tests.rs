use learning_rust::cards::{
    deck_cards, draw_cards_url, new_deck_cards, pop_cards, CantBeZeroError, Code, CodeError, DeckID,
    DeckIdError, NewDecksQuery, Suit, Value,
};

fn code(v: Value, s: Suit) -> Code {
    Code { value: v, suit: s }
}

#[test]
fn codes_are_read() {
    assert_eq!(Code::from_text("AS"), Ok(code(Value::Ace, Suit::Spades)));
    assert_eq!(Code::from_text("0H"), Ok(code(Value::Value10, Suit::Hearts)));
    assert_eq!(Code::from_text("KD"), Ok(code(Value::King, Suit::Diamonds)));
    assert_eq!(Code::from_text("2C"), Ok(code(Value::Value2, Suit::Clubs)));
}

#[test]
fn bad_codes_name_their_fault() {
    assert_eq!(Code::from_text(""), Err(CodeError::InvalidLength(0)));
    assert_eq!(Code::from_text("A"), Err(CodeError::InvalidLength(1)));
    assert_eq!(Code::from_text("X"), Err(CodeError::InvalidChar('X')));
    assert_eq!(Code::from_text("1S"), Err(CodeError::InvalidChar('1')));
    assert_eq!(Code::from_text("AX"), Err(CodeError::InvalidChar('X')));
    assert_eq!(Code::from_text("ASD"), Err(CodeError::InvalidLength(3)));
    assert_eq!(Code::from_text("AS\u{e9}\u{e9}"), Err(CodeError::InvalidLength(4)));
    assert_eq!(Code::from_text("\u{e9}S"), Err(CodeError::InvalidChar('\u{e9}')));
}

#[test]
fn every_code_reads_back() {
    for v in Value::all() {
        for s in Suit::all() {
            let (a, b) = code(v, s).to_chars();
            let text: String = [a, b].iter().collect();
            assert_eq!(Code::from_text(&text), Ok(code(v, s)));
        }
    }
}

#[test]
fn ten_is_written_as_zero() {
    assert_eq!(code(Value::Value10, Suit::Clubs).to_chars(), ('0', 'C'));
    assert_eq!(code(Value::Queen, Suit::Hearts).to_chars(), ('Q', 'H'));
}

#[test]
fn deck_ids_are_read() {
    let id = DeckID::from_text("3p40paa87x90").unwrap();
    assert_eq!(id.as_bytes(), b"3p40paa87x90");
    assert_eq!(DeckID::from_text("short").err(), Some(DeckIdError::InvalidLength(5)));
    assert_eq!(DeckID::from_text("thirteen char").err(), Some(DeckIdError::InvalidLength(13)));
    assert_eq!(DeckID::from_text("").err(), Some(DeckIdError::InvalidLength(0)));
    assert_eq!(DeckID::from_text("abcdefghijk\u{e9}").err(), Some(DeckIdError::NotAscii));
    assert!(DeckID::from_text("ABC DEF-GH!?").is_ok());
}

#[test]
fn deck_id_reads_back() {
    let id = DeckID::from_text("kxozasf3edqu").unwrap();
    let text = String::from_utf8(id.as_bytes().to_vec()).unwrap();
    assert_eq!(DeckID::from_text(&text).unwrap().as_bytes(), id.as_bytes());
}

#[test]
fn random_ids_are_lowercase_letters_and_digits() {
    for _ in 0..20 {
        let id = DeckID::random();
        assert_eq!(id.as_bytes().len(), 12);
        assert!(id.as_bytes().iter().all(|b| b.is_ascii_lowercase() || b.is_ascii_digit()));
    }
}

#[test]
fn drawing_zero_cards_is_refused() {
    let id = DeckID::from_text("kxozasf3edqu").unwrap();
    assert_eq!(draw_cards_url(&id, 0), Err(CantBeZeroError));
    assert_eq!(CantBeZeroError.message(), "cards retrieved can't be zero");
}

#[test]
fn draw_url_names_deck_and_count() {
    let id = DeckID::from_text("kxozasf3edqu").unwrap();
    let url = String::from_utf8(draw_cards_url(&id, 2).unwrap()).unwrap();
    assert_eq!(url, "https://deckofcardsapi.com/api/deck/kxozasf3edqu/draw/?count=2");
    let url = String::from_utf8(draw_cards_url(&id, 255).unwrap()).unwrap();
    assert_eq!(url, "https://deckofcardsapi.com/api/deck/kxozasf3edqu/draw/?count=255");
}

#[test]
fn a_deck_is_in_suit_then_value_order() {
    let cards = deck_cards(1);
    assert_eq!(cards.len(), 52);
    assert_eq!(cards[0], code(Value::Ace, Suit::Clubs));
    assert_eq!(cards[12], code(Value::King, Suit::Clubs));
    assert_eq!(cards[13], code(Value::Ace, Suit::Diamonds));
    assert_eq!(cards[26], code(Value::Ace, Suit::Spades));
    assert_eq!(cards[51], code(Value::King, Suit::Hearts));
    assert!(deck_cards(0).is_empty());
    let two = deck_cards(2);
    assert_eq!(two.len(), 104);
    assert_eq!(&two[52..], &cards[..]);
}

fn sorted(mut v: Vec<Code>) -> Vec<(u8, u8)> {
    let mut keys: Vec<(u8, u8)> = v
        .drain(..)
        .map(|c| {
            let (a, b) = c.to_chars();
            (a as u8, b as u8)
        })
        .collect();
    keys.sort();
    keys
}

#[test]
fn new_decks_hold_the_same_cards_shuffled() {
    let one = new_deck_cards(&NewDecksQuery { deck_count: None });
    assert_eq!(one.len(), 52);
    assert_eq!(sorted(one), sorted(deck_cards(1)));
    let three = new_deck_cards(&NewDecksQuery { deck_count: Some(3) });
    assert_eq!(three.len(), 156);
    assert_eq!(sorted(three), sorted(deck_cards(3)));
}

#[test]
fn cards_are_popped_from_the_top() {
    assert_eq!(pop_cards(vec![1, 2, 3, 4], 2), vec![4, 3]);
    assert_eq!(pop_cards(vec![1, 2, 3], 3), vec![3, 2, 1]);
    assert_eq!(pop_cards(vec![1, 2, 3], 0), Vec::<i32>::new());
}

#[test]
fn new_decks_are_shuffled() {
    // a shuffle leaves 52 cards in the order they were built once in 52! draws
    let cards = new_deck_cards(&NewDecksQuery { deck_count: Some(1) });
    assert_ne!(cards, deck_cards(1));
}

#[test]
fn picks_become_identifier_characters() {
    let picks: [u8; 12] = [0, 1, 25, 26, 35, 2, 3, 4, 5, 6, 7, 8];
    let id = DeckID::from_picks(&picks);
    assert_eq!(id.as_bytes(), b"abz09cdefghi");
}
