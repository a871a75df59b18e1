//! The checks that the services make of what they are sent: the
//! greeting service's request, the card service's requests for new decks
//! and for drawn cards, and the checks of what the deck API answers. Each
//! check either builds the validated request or names the first rule that
//! the input breaks.

use vstd::prelude::*;
use vstd::string::StrSliceExecFns;
use crate::cards::{DeckID, DeckInfo, lower_alnum};

verus! {

// ---------------------------------------------------------------------------
// The greeting service
// ---------------------------------------------------------------------------

/// A character with the Unicode `White_Space` property, which `str::trim`
/// removes.
pub open spec fn is_white(c: char) -> bool {
    ('\t' <= c <= '\r') || c == ' ' || c == '\u{85}' || c == '\u{a0}' || c == '\u{1680}' || (
    '\u{2000}' <= c <= '\u{200a}') || c == '\u{2028}' || c == '\u{2029}' || c == '\u{202f}' || c
        == '\u{205f}' || c == '\u{3000}'
}

/// The first position at or after `i` that holds no white space.
pub open spec fn lead(s: Seq<char>, i: int) -> int
    decreases s.len() - i,
{
    if 0 <= i < s.len() && is_white(s[i]) {
        lead(s, i + 1)
    } else {
        i
    }
}

/// The end of the text before `j` without the white space at its end.
pub open spec fn trail(s: Seq<char>, j: int) -> int
    decreases j,
{
    if 0 < j <= s.len() && is_white(s[j - 1]) {
        trail(s, j - 1)
    } else {
        j
    }
}

/// The text without white space at its start and its end.
pub open spec fn trimmed(s: Seq<char>) -> Seq<char> {
    if lead(s, 0) >= s.len() {
        seq![]
    } else {
        s.subrange(lead(s, 0), trail(s, s.len() as int))
    }
}

proof fn lemma_lead(s: Seq<char>, i: int)
    requires
        0 <= i <= s.len(),
    ensures
        i <= lead(s, i) <= s.len(),
        forall|k: int| i <= k < lead(s, i) ==> #[trigger] is_white(s[k]),
        lead(s, i) < s.len() ==> !is_white(s[lead(s, i)]),
    decreases s.len() - i,
{
    if i < s.len() && is_white(s[i]) {
        lemma_lead(s, i + 1);
    }
}

proof fn lemma_trail(s: Seq<char>, j: int)
    requires
        0 <= j <= s.len(),
    ensures
        0 <= trail(s, j) <= j,
        forall|k: int| trail(s, j) <= k < j ==> #[trigger] is_white(s[k]),
        trail(s, j) > 0 ==> !is_white(s[trail(s, j) - 1]),
    decreases j,
{
    if 0 < j && is_white(s[j - 1]) {
        lemma_trail(s, j - 1);
    }
}

/// Trimming keeps a piece of the text: all that comes before it and after
/// it is white space, and the piece, unless empty, neither starts nor ends
/// with white space.
pub proof fn lemma_trimmed_shape(s: Seq<char>)
    ensures
        exists|i: int, j: int|
            0 <= i <= j <= s.len() && trimmed(s) == s.subrange(i, j) && (forall|k: int|
                0 <= k < i ==> #[trigger] is_white(s[k])) && (forall|k: int|
                j <= k < s.len() ==> #[trigger] is_white(s[k])),
        trimmed(s).len() > 0 ==> !is_white(trimmed(s)[0]) && !is_white(trimmed(s).last()),
{
    let n = s.len() as int;
    lemma_lead(s, 0);
    lemma_trail(s, n);
    let i = lead(s, 0);
    let j = trail(s, n);
    if i >= n {
        assert(trimmed(s) =~= s.subrange(n, n));
        assert(forall|k: int| 0 <= k < n ==> #[trigger] is_white(s[k]));
    } else {
        if j <= i {
            assert(is_white(s[i]));
        }
        assert(i < j);
        assert(trimmed(s) == s.subrange(i, j));
        assert(trimmed(s)[0] == s[i]);
        assert(trimmed(s).last() == s[j - 1]);
    }
}

/// A greeting request that is accepted carries the name trimmed of white
/// space and the age given, whatever its earnings.
pub proof fn lemma_accepted_request(name: Seq<char>, age: i32, earnings: Option<EarningsField>)
    ensures
        checked_request(name, age, earnings) matches Ok(q) ==> q.0 == trimmed(name) && q.1 == age
            && trimmed(name).len() > 0 && age >= 0,
{
}

/// Whether a character has the Unicode `White_Space` property.
fn white(c: char) -> (r: bool)
    ensures
        r == is_white(c),
{
    ('\t' <= c && c <= '\r') || c == ' ' || c == '\u{85}' || c == '\u{a0}' || c == '\u{1680}' || (
    '\u{2000}' <= c && c <= '\u{200a}') || c == '\u{2028}' || c == '\u{2029}' || c == '\u{202f}'
        || c == '\u{205f}' || c == '\u{3000}'
}

/// The text without white space at its start and its end.
pub fn trim(s: &str) -> (r: &str)
    ensures
        r@ == trimmed(s@),
{
    let n: usize = s.unicode_len();
    let mut i: usize = 0;
    while i < n && white(s.get_char(i))
        invariant
            i <= n,
            n == s@.len(),
            lead(s@, 0) == lead(s@, i as int),
        decreases n - i,
    {
        i = i + 1;
    }
    if i == n {
        return s.substring_char(n, n);
    }
    let mut j: usize = n;
    while white(s.get_char(j - 1))
        invariant
            i < j <= n,
            n == s@.len(),
            i == lead(s@, 0),
            !is_white(s@[i as int]),
            trail(s@, n as int) == trail(s@, j as int),
        decreases j,
    {
        j = j - 1;
    }
    s.substring_char(i, j)
}

/// Why a greeting request is refused.
#[derive(Clone, Copy, Debug, PartialEq, Eq, Structural)]
pub enum MyRequestError {
    InvalidName,
    InvalidAge,
    NonPresentEarnings,
    InvalidSalary,
    InvalidHours,
    InvalidPerHours,
}

/// The message that tells the sender what a refusal means.
pub open spec fn request_error_message(e: MyRequestError) -> Seq<char> {
    match e {
        MyRequestError::InvalidName => "name must be a non-empty string"@,
        MyRequestError::InvalidAge => "age must be 0 or greater"@,
        MyRequestError::NonPresentEarnings => "earnings field must be supplied"@,
        MyRequestError::InvalidSalary => "salary must be greater than 0"@,
        MyRequestError::InvalidHours => "hours must be 0 or greater"@,
        MyRequestError::InvalidPerHours => "per hour must be greater than 0"@,
    }
}

impl MyRequestError {
    /// The message that tells the sender what the refusal means.
    pub fn message(&self) -> (r: &'static str)
        ensures
            r@ == request_error_message(*self),
    {
        match self {
            MyRequestError::InvalidName => "name must be a non-empty string",
            MyRequestError::InvalidAge => "age must be 0 or greater",
            MyRequestError::NonPresentEarnings => "earnings field must be supplied",
            MyRequestError::InvalidSalary => "salary must be greater than 0",
            MyRequestError::InvalidHours => "hours must be 0 or greater",
            MyRequestError::InvalidPerHours => "per hour must be greater than 0",
        }
    }
}

/// The earnings as sent: a salary, or hours worked and whether the hourly
/// rate is above zero (the rate itself, a float, stays with the caller).
#[derive(Clone, Copy, Debug, PartialEq, Eq, Structural)]
pub enum EarningsField {
    Salaried(i32),
    Hourly { hours: i32, per_hour_positive: bool },
}

/// Checked earnings: a positive salary, or a number of hours of at least
/// zero at a positive rate.
#[derive(Clone, Copy, Debug, PartialEq, Eq, Structural)]
pub enum Earnings {
    Salaried(i32),
    Hourly { hours: i32 },
}

/// A checked greeting request.
pub struct Request<'a> {
    pub name: &'a str,
    pub age: i32,
    pub earnings: Earnings,
}

/// What the greeting service makes of a request's fields: the first rule
/// broken, checked in the order name, age, earnings; else the request with
/// its name trimmed.
pub open spec fn checked_request(name: Seq<char>, age: i32, earnings: Option<EarningsField>) -> Result<
    (Seq<char>, i32, Earnings),
    MyRequestError,
> {
    if trimmed(name).len() == 0 {
        Err(MyRequestError::InvalidName)
    } else if age < 0 {
        Err(MyRequestError::InvalidAge)
    } else {
        match earnings {
            None => Err(MyRequestError::NonPresentEarnings),
            Some(EarningsField::Salaried(s)) => if s <= 0 {
                Err(MyRequestError::InvalidSalary)
            } else {
                Ok((trimmed(name), age, Earnings::Salaried(s)))
            },
            Some(EarningsField::Hourly { hours, per_hour_positive }) => if hours < 0 {
                Err(MyRequestError::InvalidHours)
            } else if !per_hour_positive {
                Err(MyRequestError::InvalidPerHours)
            } else {
                Ok((trimmed(name), age, Earnings::Hourly { hours }))
            },
        }
    }
}

impl<'a> Request<'a> {
    /// Checks a greeting request's fields.
    pub fn try_from_fields(name: &'a str, age: i32, earnings: Option<EarningsField>) -> (r: Result<
        Request<'a>,
        MyRequestError,
    >)
        ensures
            r matches Ok(q) ==> q.name@ == trimmed(name@) && q.age == age,
            match r {
                Ok(q) => checked_request(name@, age, earnings) == Ok::<
                    (Seq<char>, i32, Earnings),
                    MyRequestError,
                >((q.name@, q.age, q.earnings)),
                Err(e) => checked_request(name@, age, earnings) == Err::<
                    (Seq<char>, i32, Earnings),
                    MyRequestError,
                >(e),
            },
    {
        let name: &str = trim(name);
        if name.unicode_len() == 0 {
            return Err(MyRequestError::InvalidName);
        }
        if age < 0 {
            return Err(MyRequestError::InvalidAge);
        }
        let earnings: Earnings = match earnings {
            None => return Err(MyRequestError::NonPresentEarnings),
            Some(EarningsField::Salaried(s)) => {
                if s <= 0 {
                    return Err(MyRequestError::InvalidSalary);
                }
                Earnings::Salaried(s)
            },
            Some(EarningsField::Hourly { hours, per_hour_positive }) => {
                if hours < 0 {
                    return Err(MyRequestError::InvalidHours);
                }
                if !per_hour_positive {
                    return Err(MyRequestError::InvalidPerHours);
                }
                Earnings::Hourly { hours }
            },
        };
        Ok(Request { name, age, earnings })
    }
}

// ---------------------------------------------------------------------------
// The card service
// ---------------------------------------------------------------------------

/// A checked request for new decks: how many to shuffle together.
#[derive(Clone, Copy, Debug, PartialEq, Eq, Structural)]
pub struct NewDecksRequest {
    pub decks: usize,
}

/// The answer to a request for new decks: the new deck's identifier.
#[derive(Clone, Copy)]
pub struct NewDecksResponse {
    pub deck_id: DeckID,
}

/// A checked request to draw cards: from which deck, how many hands and
/// how many cards in each.
#[derive(Clone, Copy)]
pub struct DrawCardsRequest {
    pub deck_id: DeckID,
    pub hands: usize,
    pub count: u8,
}

/// Why a request for new decks is refused.
#[derive(Clone, Copy, Debug, PartialEq, Eq, Structural)]
pub enum NewDecksRequestValidationError {
    /// The count of decks is not a positive integer.
    InvalidDeckCount,
}

/// Why a request to draw cards is refused.
#[derive(Clone, Copy, Debug, PartialEq, Eq, Structural)]
pub enum DrawCardsRequestValidationError {
    /// The identifier is not 12 lower-case letters and digits.
    DeckID,
    /// The number of hands is not positive.
    Hands,
    /// The number of cards is not a positive value that fits in a byte.
    Count,
}

impl NewDecksRequestValidationError {
    /// The message that tells the sender what the refusal means.
    pub fn message(&self) -> (r: &'static str)
        ensures
            r@ == "count must be a positive integer"@,
    {
        "count must be a positive integer"
    }
}

/// The message that tells the sender what a refusal means.
pub open spec fn draw_error_message(e: DrawCardsRequestValidationError) -> Seq<char> {
    match e {
        DrawCardsRequestValidationError::DeckID => "a deck id must be 12 lowercase letters and numbers"@,
        DrawCardsRequestValidationError::Hands => "hands must be a positive integer"@,
        DrawCardsRequestValidationError::Count => "count must be a positive u8 value"@,
    }
}

/// What each refusal tells the sender: the greeting service's messages
/// name the field and the rule it breaks, the card service's messages the
/// rule for the identifier, the hands and the count.
pub proof fn lemma_refusal_messages()
    ensures
        request_error_message(MyRequestError::InvalidName) == "name must be a non-empty string"@,
        request_error_message(MyRequestError::InvalidAge) == "age must be 0 or greater"@,
        request_error_message(MyRequestError::NonPresentEarnings) == "earnings field must be supplied"@,
        request_error_message(MyRequestError::InvalidSalary) == "salary must be greater than 0"@,
        request_error_message(MyRequestError::InvalidHours) == "hours must be 0 or greater"@,
        request_error_message(MyRequestError::InvalidPerHours) == "per hour must be greater than 0"@,
        draw_error_message(DrawCardsRequestValidationError::DeckID)
            == "a deck id must be 12 lowercase letters and numbers"@,
        draw_error_message(DrawCardsRequestValidationError::Hands) == "hands must be a positive integer"@,
        draw_error_message(DrawCardsRequestValidationError::Count) == "count must be a positive u8 value"@,
{
}

impl DrawCardsRequestValidationError {
    /// The message that tells the sender what the refusal means.
    pub fn message(&self) -> (r: &'static str)
        ensures
            r@ == draw_error_message(*self),
    {
        match self {
            DrawCardsRequestValidationError::DeckID => "a deck id must be 12 lowercase letters and numbers",
            DrawCardsRequestValidationError::Hands => "hands must be a positive integer",
            DrawCardsRequestValidationError::Count => "count must be a positive u8 value",
        }
    }
}

/// Twelve characters, each a lower-case letter or a digit.
pub open spec fn valid_deck_id_text(s: Seq<char>) -> bool {
    s.len() == 12 && forall|i: int| 0 <= i < 12 ==> #[trigger] lower_alnum_char(s[i])
}

/// A lower-case ASCII letter or a digit.
pub open spec fn lower_alnum_char(c: char) -> bool {
    ('a' <= c <= 'z') || ('0' <= c <= '9')
}

impl NewDecksRequest {
    /// Checks a request for `decks` decks: the count must be positive.
    pub fn try_from_count(decks: i32) -> (r: Result<NewDecksRequest, NewDecksRequestValidationError>)
        ensures
            match r {
                Ok(q) => decks > 0 && q.decks == decks,
                Err(_) => decks <= 0,
            },
    {
        if decks <= 0 {
            return Err(NewDecksRequestValidationError::InvalidDeckCount);
        }
        Ok(NewDecksRequest { decks: decks as usize })
    }
}

impl DrawCardsRequest {
    /// Checks a request to draw cards, in the order identifier, count,
    /// hands: the count must be a positive value that fits in a byte and the
    /// number of hands must be positive.
    pub fn try_from_fields(deck_id: &str, hands: i32, count: i32) -> (r: Result<
        DrawCardsRequest,
        DrawCardsRequestValidationError,
    >)
        ensures
            match r {
                Ok(q) => {
                    &&& valid_deck_id_text(deck_id@)
                    &&& 1 <= count <= 255
                    &&& hands >= 1
                    &&& q.deck_id@ == crate::bytes::ascii(deck_id@)
                    &&& q.count == count
                    &&& q.hands == hands
                },
                Err(e) => e == (if !valid_deck_id_text(deck_id@) {
                    DrawCardsRequestValidationError::DeckID
                } else if !(1 <= count <= 255) {
                    DrawCardsRequestValidationError::Count
                } else {
                    DrawCardsRequestValidationError::Hands
                }) && !(valid_deck_id_text(deck_id@) && 1 <= count <= 255 && hands >= 1),
            },
    {
        let n: usize = deck_id.unicode_len();
        if n != 12 {
            return Err(DrawCardsRequestValidationError::DeckID);
        }
        let mut i: usize = 0;
        while i < 12
            invariant
                i <= 12,
                deck_id@.len() == 12,
                forall|k: int| 0 <= k < i ==> #[trigger] lower_alnum_char(deck_id@[k]),
            decreases 12 - i,
        {
            let c: char = deck_id.get_char(i);
            if !(('a' <= c && c <= 'z') || ('0' <= c && c <= '9')) {
                assert(!lower_alnum_char(deck_id@[i as int]));
                return Err(DrawCardsRequestValidationError::DeckID);
            }
            i = i + 1;
        }
        proof {
            assert forall|k: int| 0 <= k < deck_id@.len() implies '\0' <= #[trigger] deck_id@[k]
                <= '\u{7f}' by {
                assert(lower_alnum_char(deck_id@[k]));
            }
        }
        let parsed: Result<DeckID, crate::cards::DeckIdError> = DeckID::from_text(deck_id);
        assert(parsed is Ok);
        let id: DeckID = match parsed {
            Ok(id) => id,
            Err(_) => return Err(DrawCardsRequestValidationError::DeckID),
        };
        if count < 1 || count > 255 {
            return Err(DrawCardsRequestValidationError::Count);
        }
        if hands < 1 {
            return Err(DrawCardsRequestValidationError::Hands);
        }
        Ok(DrawCardsRequest { deck_id: id, hands: hands as usize, count: count as u8 })
    }
}

// ---------------------------------------------------------------------------
// What the deck API answers
// ---------------------------------------------------------------------------

/// The deck API answered that a request did not succeed.
#[derive(Clone, Copy, Debug, PartialEq, Eq, Structural)]
pub struct FalseSuccess;

/// The answer to a request for new decks, if the API says it succeeded.
pub fn check_new_deck(info: &DeckInfo) -> (r: Result<NewDecksResponse, FalseSuccess>)
    ensures
        match r {
            Ok(resp) => info.success && resp.deck_id@ == info.deck_id@,
            Err(_) => !info.success,
        },
{
    if !info.success {
        return Err(FalseSuccess);
    }
    Ok(NewDecksResponse { deck_id: info.deck_id })
}

/// Whether every hand drawn was reported as a success.
pub fn check_hands(successes: &[bool]) -> (r: Result<(), FalseSuccess>)
    ensures
        r is Ok <==> forall|i: int| 0 <= i < successes@.len() ==> #[trigger] successes@[i],
{
    let mut i: usize = 0;
    while i < successes.len()
        invariant
            i <= successes.len(),
            forall|k: int| 0 <= k < i ==> #[trigger] successes@[k],
        decreases successes.len() - i,
    {
        if !successes[i] {
            return Err(FalseSuccess);
        }
        i = i + 1;
    }
    Ok(())
}

// ---------------------------------------------------------------------------
// Settings and records
// ---------------------------------------------------------------------------

/// The names of the database's collections.
#[derive(Clone, Debug)]
pub struct Collections {
    pub interactions: String,
}

/// The database's name and collections.
#[derive(Clone, Debug)]
pub struct DatabaseConfig {
    pub database: String,
    pub collections: Collections,
}

/// How to reach the database and what it holds.
#[derive(Clone, Debug)]
pub struct MongoConfig {
    pub connection_string: String,
    pub database_info: DatabaseConfig,
}

/// How often a deck has been drawn from.
#[derive(Clone, Copy)]
pub struct InteractionRecord {
    pub deck_id: DeckID,
    pub count: usize,
}

impl InteractionRecord {
    /// The record of a new deck: not drawn from yet.
    pub fn new(deck_id: DeckID) -> (r: InteractionRecord)
        ensures
            r.deck_id@ == deck_id@,
            r.count == 0,
    {
        InteractionRecord { deck_id, count: 0 }
    }
}

} // verus!
