//! What the message-queue consumers decide: which consumer a message goes
//! to by its type header, how a processed message is settled (acknowledged,
//! or refused with or without being queued again), and what the example
//! consumers make of the messages they count and collect.

use vstd::prelude::*;
use std::sync::Arc;
use std::sync::atomic::AtomicUsize;
use std::sync::atomic::Ordering;
use crate::text::str_eq;

verus! {

/// `serde_json::Error`, why a message's body is no valid JSON of the
/// expected shape.
#[verifier::external_type_specification]
#[verifier::external_body]
pub struct ExJsonError(serde_json::Error);

/// Whether a refused message goes back on the queue.
#[derive(Clone, Copy, Debug, PartialEq, Eq, Structural)]
pub enum Requeue {
    Yes,
    No,
}

impl From<Requeue> for bool {
    /// The flag that the queue takes: `true` for a message to be queued
    /// again.
    fn from(value: Requeue) -> (r: bool) {
        match value {
            Requeue::Yes => true,
            Requeue::No => false,
        }
    }
}

impl vstd::std_specs::convert::FromSpecImpl<Requeue> for bool {
    open spec fn obeys_from_spec() -> bool {
        true
    }

    open spec fn from_spec(v: Requeue) -> bool {
        v == Requeue::Yes
    }
}

/// How an error of a consumer settles its message: not queued again unless
/// the error says so.
pub trait ShouldRequeue {
    fn should_requeue(&self) -> (r: Requeue)
        default_ensures
            r == Requeue::No,
    {
        Requeue::No
    }
}

/// How a delivered message is settled.
#[derive(Clone, Copy, Debug, PartialEq, Eq, Structural)]
pub enum DeliveryAction {
    /// The message was handled.
    Ack,
    /// The message was refused, and goes back on the queue if `requeue`.
    Nack { requeue: bool },
}

/// Settles a message by what handling it gave: handled messages are
/// acknowledged, refused ones refused as their error says.
pub fn settle(outcome: Result<(), Requeue>) -> (r: DeliveryAction)
    ensures
        match outcome {
            Ok(_) => r == DeliveryAction::Ack,
            Err(q) => r == DeliveryAction::Nack { requeue: q == Requeue::Yes },
        },
{
    match outcome {
        Ok(_) => DeliveryAction::Ack,
        Err(q) => DeliveryAction::Nack { requeue: bool::from(q) },
    }
}

/// What the consumer loop learnt while waiting for the next delivery.
#[derive(Clone, Copy, Debug, PartialEq, Eq, Structural)]
pub enum ConsumerEvent {
    /// The consumer was told to stop.
    Killed,
    /// The stream of deliveries ended.
    StreamEnded,
    /// A delivery failed.
    DeliveryFailed,
    /// A message was delivered.
    Delivered,
    /// A delivered message could not be handed to the workers.
    HandOffFailed,
}

/// What the consumer loop does next.
#[derive(Clone, Copy, Debug, PartialEq, Eq, Structural)]
pub enum ConsumerStep {
    /// Close the workers' channel and wait for them.
    Stop,
    /// Wait for the next delivery.
    Next,
    /// Hand the message to the workers.
    HandOff,
}

/// The consumer loop's decision: a failed delivery is skipped, a delivered
/// message handed to the workers, and anything else ends the loop.
pub fn consumer_step(event: ConsumerEvent) -> (r: ConsumerStep)
    ensures
        r == match event {
            ConsumerEvent::DeliveryFailed => ConsumerStep::Next,
            ConsumerEvent::Delivered => ConsumerStep::HandOff,
            _ => ConsumerStep::Stop,
        },
{
    match event {
        ConsumerEvent::Killed => ConsumerStep::Stop,
        ConsumerEvent::StreamEnded => ConsumerStep::Stop,
        ConsumerEvent::DeliveryFailed => ConsumerStep::Next,
        ConsumerEvent::Delivered => ConsumerStep::HandOff,
        ConsumerEvent::HandOffFailed => ConsumerStep::Stop,
    }
}

/// The first consumer whose message type is `header`.
pub open spec fn consumer_for(types: Seq<Seq<char>>, header: Seq<char>) -> Option<int>
    decreases types.len(),
{
    if types.len() == 0 {
        None
    } else if types[0] == header {
        Some(0)
    } else {
        match consumer_for(types.subrange(1, types.len() as int), header) {
            Some(i) => Some(i + 1),
            None => None,
        }
    }
}

/// The consumer chosen for a header is the first one whose message type
/// equals the header, and none is chosen exactly when no type equals it.
pub proof fn lemma_consumer_for(types: Seq<Seq<char>>, header: Seq<char>)
    ensures
        consumer_for(types, header) matches Some(i) ==> 0 <= i < types.len() && types[i] == header
            && forall|k: int| 0 <= k < i ==> #[trigger] types[k] != header,
        consumer_for(types, header) is None <==> forall|k: int|
            0 <= k < types.len() ==> #[trigger] types[k] != header,
    decreases types.len(),
{
    if types.len() > 0 {
        let rest = types.subrange(1, types.len() as int);
        lemma_consumer_for(rest, header);
        assert forall|k: int| 1 <= k < types.len() implies #[trigger] types[k] == rest[k - 1] by {}
        if types[0] != header {
            if consumer_for(rest, header) is None {
                assert forall|k: int| 0 <= k < types.len() implies #[trigger] types[k] != header by {
                    if k > 0 {
                        assert(types[k] == rest[k - 1]);
                    }
                }
            } else {
                let i = consumer_for(rest, header)->0;
                assert(types[i + 1] == rest[i]);
                assert forall|k: int| 0 <= k < i + 1 implies #[trigger] types[k] != header by {
                    if k > 0 {
                        assert(types[k] == rest[k - 1]);
                    }
                }
            }
        }
    }
}

/// The position of the first consumer, among consumers for the message
/// types `types`, that takes messages of type `header`; a message that no
/// consumer takes is refused and not queued again.
pub fn delegate_to(types: &[&str], header: &str) -> (r: Result<usize, Requeue>)
    ensures
        r matches Ok(i) ==> i < types@.len() && types@[i as int]@ == header@,
        r is Err ==> forall|k: int| 0 <= k < types@.len() ==> #[trigger] types@[k]@ != header@,
        match r {
            Ok(i) => consumer_for(types@.map_values(|t: &str| t@), header@) == Some(i as int),
            Err(q) => q == Requeue::No && consumer_for(
                types@.map_values(|t: &str| t@),
                header@,
            ) is None,
        },
{
    let ghost all = types@.map_values(|t: &str| t@);
    let mut i: usize = 0;
    assert(all.subrange(0, all.len() as int) =~= all);
    while i < types.len()
        invariant
            i <= types.len(),
            all == types@.map_values(|t: &str| t@),
            consumer_for(all, header@) == match consumer_for(
                all.subrange(i as int, all.len() as int),
                header@,
            ) {
                Some(k) => Some(k + i),
                None => None::<int>,
            },
        decreases types.len() - i,
    {
        let ghost rest = all.subrange(i as int, all.len() as int);
        assert(rest[0] == types@[i as int]@);
        if str_eq(types[i], header) {
            proof {
                lemma_consumer_for(all, header@);
            }
            return Ok(i);
        }
        assert(rest.subrange(1, rest.len() as int) =~= all.subrange(i + 1, all.len() as int));
        i = i + 1;
    }
    proof {
        lemma_consumer_for(all, header@);
        assert forall|k: int| 0 <= k < types@.len() implies #[trigger] types@[k]@ != header@ by {
            assert(all[k] == types@[k]@);
        }
    }
    Err(Requeue::No)
}

// ---------------------------------------------------------------------------
// The example consumers
// ---------------------------------------------------------------------------

/// A message of the first kind.
#[derive(Clone, Debug)]
pub struct MyMessage {
    pub age: usize,
    pub name: String,
}

/// The age group of a school.
#[derive(Clone, Copy, Debug, PartialEq, Eq, Structural)]
pub enum SchoolAge {
    Primary,
    Secondary,
    Other,
}

/// A pupil's names.
#[derive(Clone, Debug)]
pub struct Pupil {
    pub first_name: String,
    pub second_name: String,
}

/// A message of the second kind: pupils of a school.
#[derive(Clone, Debug)]
pub struct OtherMessage {
    pub school_age: SchoolAge,
    pub pupils: Vec<Pupil>,
}

/// Why the first consumer refuses a message.
#[derive(Debug)]
pub enum MyMessageConsumerError {
    /// The body is no message of the first kind.
    JsonError(serde_json::Error),
    /// Fewer than five messages have been received, this one included.
    ArbitraryError(usize),
}

/// Why the second consumer refuses a message.
#[derive(Debug)]
pub enum OtherMessageError {
    /// The body is no message of the second kind.
    JsonError(serde_json::Error),
}

impl ShouldRequeue for MyMessageConsumerError {
    fn should_requeue(&self) -> (r: Requeue)
        ensures
            r == match self {
                MyMessageConsumerError::JsonError(_) => Requeue::No,
                MyMessageConsumerError::ArbitraryError(_) => Requeue::Yes,
            },
    {
        match self {
            MyMessageConsumerError::JsonError(_) => Requeue::No,
            MyMessageConsumerError::ArbitraryError(_) => Requeue::Yes,
        }
    }
}

impl ShouldRequeue for OtherMessageError {

}

/// The first consumer: counts what it receives, refusing the first four
/// messages.
pub struct MyMessageConsumer {
    received: AtomicUsize,
    received_all: Arc<AtomicUsize>,
}

/// Adds one to a shared counter and gives its new value, wrapping on
/// overflow as the counter does; other tasks may count too.
fn bump(counter: &AtomicUsize) -> usize {
    counter.fetch_add(1, Ordering::SeqCst).wrapping_add(1)
}

/// What the first consumer makes of its `n`-th message: it refuses the
/// first four.
pub fn check_received(n: usize) -> (r: Result<(), MyMessageConsumerError>)
    ensures
        match r {
            Ok(_) => n >= 5,
            Err(MyMessageConsumerError::ArbitraryError(k)) => k == n && n < 5,
            Err(MyMessageConsumerError::JsonError(_)) => false,
        },
{
    if n < 5 {
        return Err(MyMessageConsumerError::ArbitraryError(n));
    }
    Ok(())
}

impl MyMessageConsumer {
    /// A consumer with no messages received, sharing the count of all
    /// messages.
    pub fn new(received_all: Arc<AtomicUsize>) -> (r: MyMessageConsumer)
        ensures
            r.received_all() == received_all,
    {
        MyMessageConsumer { received: AtomicUsize::new(0), received_all }
    }

    /// The count of all messages that this consumer shares.
    pub closed spec fn received_all(&self) -> Arc<AtomicUsize> {
        self.received_all
    }

    /// Counts a message in this consumer's and in the shared count, and
    /// decides by this consumer's count; gives back both counts.
    pub fn process(&self) -> (r: (usize, usize, Result<(), MyMessageConsumerError>))
        ensures
            match r.2 {
                Ok(_) => r.0 >= 5,
                Err(MyMessageConsumerError::ArbitraryError(k)) => k == r.0 && r.0 < 5,
                Err(MyMessageConsumerError::JsonError(_)) => false,
            },
    {
        let n: usize = bump(&self.received);
        let total: usize = bump(&*self.received_all);
        (n, total, check_received(n))
    }
}

/// What the second consumer keeps: every pupil of every message, in the
/// order received.
pub fn add_pupils(pupils: &mut Vec<Pupil>, msg: OtherMessage)
    ensures
        final(pupils)@ == old(pupils)@ + msg.pupils@,
{
    let mut more: Vec<Pupil> = msg.pupils;
    pupils.append(&mut more);
}

} // verus!
