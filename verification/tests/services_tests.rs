use learning_rust::cards::{DeckID, DeckInfo};
use learning_rust::services::{
    check_hands, check_new_deck, trim, DrawCardsRequest, DrawCardsRequestValidationError, Earnings,
    EarningsField, FalseSuccess, MyRequestError, NewDecksRequest, NewDecksRequestValidationError, Request,
};

#[test]
fn names_are_trimmed() {
    assert_eq!(trim("  bob \n"), "bob");
    assert_eq!(trim("bob"), "bob");
    assert_eq!(trim(" \t "), "");
    assert_eq!(trim(""), "");
    assert_eq!(trim("\u{3000}a b\u{a0}"), "a b");
}

#[test]
fn a_valid_greeting_request_is_accepted() {
    let r = Request::try_from_fields("  ada ", 36, Some(EarningsField::Salaried(100))).ok().unwrap();
    assert_eq!(r.name, "ada");
    assert_eq!(r.age, 36);
    assert_eq!(r.earnings, Earnings::Salaried(100));
    let r = Request::try_from_fields("bo", 0, Some(EarningsField::Hourly { hours: 0, per_hour_positive: true }))
        .ok()
        .unwrap();
    assert_eq!(r.earnings, Earnings::Hourly { hours: 0 });
}

#[test]
fn greeting_refusals_name_the_first_fault() {
    let e = |name: &str, age: i32, earnings: Option<EarningsField>| Request::try_from_fields(name, age, earnings).err();
    assert_eq!(e("  ", -1, None), Some(MyRequestError::InvalidName));
    assert_eq!(e("a", -1, None), Some(MyRequestError::InvalidAge));
    assert_eq!(e("a", 1, None), Some(MyRequestError::NonPresentEarnings));
    assert_eq!(e("a", 1, Some(EarningsField::Salaried(0))), Some(MyRequestError::InvalidSalary));
    assert_eq!(
        e("a", 1, Some(EarningsField::Hourly { hours: -1, per_hour_positive: false })),
        Some(MyRequestError::InvalidHours)
    );
    assert_eq!(
        e("a", 1, Some(EarningsField::Hourly { hours: 3, per_hour_positive: false })),
        Some(MyRequestError::InvalidPerHours)
    );
}

#[test]
fn greeting_refusal_messages() {
    assert_eq!(MyRequestError::InvalidName.message(), "name must be a non-empty string");
    assert_eq!(MyRequestError::InvalidAge.message(), "age must be 0 or greater");
    assert_eq!(MyRequestError::NonPresentEarnings.message(), "earnings field must be supplied");
    assert_eq!(MyRequestError::InvalidSalary.message(), "salary must be greater than 0");
    assert_eq!(MyRequestError::InvalidHours.message(), "hours must be 0 or greater");
    assert_eq!(MyRequestError::InvalidPerHours.message(), "per hour must be greater than 0");
}

#[test]
fn deck_counts_must_be_positive() {
    assert_eq!(NewDecksRequest::try_from_count(3), Ok(NewDecksRequest { decks: 3 }));
    assert_eq!(NewDecksRequest::try_from_count(0), Err(NewDecksRequestValidationError::InvalidDeckCount));
    assert_eq!(NewDecksRequest::try_from_count(-4), Err(NewDecksRequestValidationError::InvalidDeckCount));
    assert_eq!(NewDecksRequestValidationError::InvalidDeckCount.message(), "count must be a positive integer");
}

#[test]
fn draw_requests_are_checked_in_order() {
    let q = DrawCardsRequest::try_from_fields("abcdef123456", 20, 5).ok().unwrap();
    assert_eq!(q.deck_id.as_bytes(), b"abcdef123456");
    assert_eq!(q.hands, 20);
    assert_eq!(q.count, 5);
    let e = |id: &str, hands: i32, count: i32| DrawCardsRequest::try_from_fields(id, hands, count).err();
    assert_eq!(e("ABCDEF123456", 0, 0), Some(DrawCardsRequestValidationError::DeckID));
    assert_eq!(e("abc", 1, 1), Some(DrawCardsRequestValidationError::DeckID));
    assert_eq!(e("abcdef1234567", 1, 1), Some(DrawCardsRequestValidationError::DeckID));
    assert_eq!(e("abcdef123456", -1, 256), Some(DrawCardsRequestValidationError::Count));
    assert_eq!(e("abcdef123456", -1, -1), Some(DrawCardsRequestValidationError::Count));
    assert_eq!(e("abcdef123456", -1, 0), Some(DrawCardsRequestValidationError::Count));
    assert_eq!(e("abcdef123456", -3, 255), Some(DrawCardsRequestValidationError::Hands));
    let q = DrawCardsRequest::try_from_fields("abcdef123456", 1, 1).ok().unwrap();
    assert_eq!((q.hands, q.count), (1, 1));
}

#[test]
fn draw_requests_refuse_zero_cards_and_zero_hands() {
    let e = |id: &str, hands: i32, count: i32| DrawCardsRequest::try_from_fields(id, hands, count).err();
    assert_eq!(e("abc123def456", 1, 0), Some(DrawCardsRequestValidationError::Count));
    assert_eq!(e("abc123def456", 0, 5), Some(DrawCardsRequestValidationError::Hands));
}

#[test]
fn draw_refusal_messages() {
    assert_eq!(
        DrawCardsRequestValidationError::DeckID.message(),
        "a deck id must be 12 lowercase letters and numbers"
    );
    assert_eq!(DrawCardsRequestValidationError::Hands.message(), "hands must be a positive integer");
    assert_eq!(DrawCardsRequestValidationError::Count.message(), "count must be a positive u8 value");
}

fn info(success: bool) -> DeckInfo {
    DeckInfo { success, deck_id: DeckID::from_text("kxozasf3edqu").unwrap(), shuffled: true, remaining: 52 }
}

#[test]
fn new_deck_answer_is_checked() {
    let resp = check_new_deck(&info(true)).ok().unwrap();
    assert_eq!(resp.deck_id.as_bytes(), b"kxozasf3edqu");
    assert!(matches!(check_new_deck(&info(false)), Err(FalseSuccess)));
}

#[test]
fn every_hand_must_succeed() {
    assert_eq!(check_hands(&[]), Ok(()));
    assert_eq!(check_hands(&[true, true]), Ok(()));
    assert_eq!(check_hands(&[true, false, true]), Err(FalseSuccess));
}
