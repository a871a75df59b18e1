use std::sync::atomic::{AtomicUsize, Ordering};
use std::sync::Arc;

use learning_rust::messaging::{
    add_pupils, check_received, consumer_step, delegate_to, settle, ConsumerEvent, ConsumerStep,
    DeliveryAction, MyMessageConsumer, MyMessageConsumerError, OtherMessage, Pupil, Requeue, SchoolAge,
    ShouldRequeue,
};

#[test]
fn requeue_flag() {
    assert!(bool::from(Requeue::Yes));
    let no: bool = Requeue::No.into();
    assert!(!no);
}

#[test]
fn messages_are_settled_by_outcome() {
    assert_eq!(settle(Ok(())), DeliveryAction::Ack);
    assert_eq!(settle(Err(Requeue::Yes)), DeliveryAction::Nack { requeue: true });
    assert_eq!(settle(Err(Requeue::No)), DeliveryAction::Nack { requeue: false });
}

#[test]
fn messages_go_to_the_first_matching_consumer() {
    let types = ["msg-joseph", "msg-joseph-2", "msg-joseph"];
    assert_eq!(delegate_to(&types, "msg-joseph"), Ok(0));
    assert_eq!(delegate_to(&types, "msg-joseph-2"), Ok(1));
    assert_eq!(delegate_to(&types, "other"), Err(Requeue::No));
    assert_eq!(delegate_to(&[], "msg-joseph"), Err(Requeue::No));
}

#[test]
fn consumer_loop_steps() {
    assert_eq!(consumer_step(ConsumerEvent::Killed), ConsumerStep::Stop);
    assert_eq!(consumer_step(ConsumerEvent::StreamEnded), ConsumerStep::Stop);
    assert_eq!(consumer_step(ConsumerEvent::DeliveryFailed), ConsumerStep::Next);
    assert_eq!(consumer_step(ConsumerEvent::Delivered), ConsumerStep::HandOff);
    assert_eq!(consumer_step(ConsumerEvent::HandOffFailed), ConsumerStep::Stop);
}

#[test]
fn the_first_four_messages_are_refused_and_requeued() {
    for n in 0..5 {
        match check_received(n) {
            Err(MyMessageConsumerError::ArbitraryError(k)) => assert_eq!(k, n),
            _ => panic!("message {n} should be refused"),
        }
    }
    assert!(check_received(5).is_ok());
    assert!(check_received(6).is_ok());
    assert_eq!(MyMessageConsumerError::ArbitraryError(3).should_requeue(), Requeue::Yes);
}

#[test]
fn consumer_counts_its_messages_and_all_messages() {
    let all = Arc::new(AtomicUsize::new(10));
    let c = MyMessageConsumer::new(all.clone());
    for expected in 1..=4 {
        let (n, total, outcome) = c.process();
        assert_eq!(n, expected);
        assert_eq!(total, 10 + expected);
        assert!(matches!(outcome, Err(MyMessageConsumerError::ArbitraryError(k)) if k == expected));
    }
    let (n, _, outcome) = c.process();
    assert_eq!(n, 5);
    assert!(outcome.is_ok());
    assert_eq!(all.load(Ordering::SeqCst), 15);
}

#[test]
fn json_errors_are_not_requeued() {
    let err = serde_json::from_str::<u8>("x").unwrap_err();
    assert_eq!(MyMessageConsumerError::JsonError(err).should_requeue(), Requeue::No);
    let err = serde_json::from_str::<u8>("x").unwrap_err();
    assert_eq!(learning_rust::messaging::OtherMessageError::JsonError(err).should_requeue(), Requeue::No);
}

fn pupil(a: &str, b: &str) -> Pupil {
    Pupil { first_name: a.to_string(), second_name: b.to_string() }
}

#[test]
fn pupils_are_collected_in_order() {
    let mut kept = vec![pupil("a", "b")];
    add_pupils(&mut kept, OtherMessage { school_age: SchoolAge::Primary, pupils: vec![pupil("c", "d"), pupil("e", "f")] });
    let names: Vec<&str> = kept.iter().map(|p| p.first_name.as_str()).collect();
    assert_eq!(names, vec!["a", "c", "e"]);
    assert_eq!(kept[2].second_name, "f");
}
