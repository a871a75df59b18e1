use learning_rust::basics::{either, int_from_text, sum_of_even, try_sum_of_even, ClientAction, ClientEvent, EchoServer, IntErrorKind};

#[test]
fn either_picks_by_flag() {
    assert_eq!(either("xyz", "abc", true), "xyz");
    assert_eq!(either("xyz", "abc", false), "abc");
}

#[test]
fn sum_of_even_numbers() {
    assert_eq!(sum_of_even(1, 100), 2550);
    assert_eq!(sum_of_even(2, 2), 2);
    assert_eq!(sum_of_even(3, 3), 0);
    assert_eq!(sum_of_even(5, 4), 0);
    assert_eq!(sum_of_even(0, 10), 30);
}

#[test]
fn integers_are_read() {
    assert_eq!(int_from_text("123"), Ok(123));
    assert_eq!(int_from_text("+7"), Ok(7));
    assert_eq!(int_from_text("0042"), Ok(42));
    assert_eq!(int_from_text("18446744073709551615"), Ok(u64::MAX));
}

#[test]
fn integer_faults() {
    assert_eq!(int_from_text(""), Err(IntErrorKind::Empty));
    assert_eq!(int_from_text("+"), Err(IntErrorKind::InvalidDigit));
    assert_eq!(int_from_text("-1"), Err(IntErrorKind::InvalidDigit));
    assert_eq!(int_from_text("12a"), Err(IntErrorKind::InvalidDigit));
    assert_eq!(int_from_text("123\n"), Err(IntErrorKind::InvalidDigit));
    assert_eq!(int_from_text("18446744073709551616"), Err(IntErrorKind::PosOverflow));
    assert_eq!(int_from_text("99999999999999999999x"), Err(IntErrorKind::PosOverflow));
    assert_eq!(IntErrorKind::Empty.message(), "cannot parse integer from empty string");
}

#[test]
fn agrees_with_std_parse() {
    for s in ["", "+", "-", "-0", "+0", "1", "007", "18446744073709551615", "18446744073709551616", "4x", " 4"] {
        let ours = int_from_text(s);
        match s.parse::<u64>() {
            Ok(v) => assert_eq!(ours, Ok(v), "{s:?}"),
            Err(_) => assert!(ours.is_err(), "{s:?}"),
        }
    }
}

#[test]
fn echo_server_keeps_lines_and_counts() {
    let mut s = EchoServer::new();
    assert_eq!(s.client_connected(), 1);
    assert_eq!(s.client_connected(), 2);
    assert_eq!(s.client_event(&ClientEvent::Read(b"hi\n".to_vec())), ClientAction::Echo { line_number: 1 });
    assert_eq!(s.client_event(&ClientEvent::Read(b"yo\n".to_vec())), ClientAction::Echo { line_number: 2 });
    assert_eq!(s.client_event(&ClientEvent::Read(Vec::new())), ClientAction::Stop);
    assert_eq!(s.client_event(&ClientEvent::ReadFailed), ClientAction::Stop);
    assert_eq!(s.client_event(&ClientEvent::Cancelled), ClientAction::Stop);
    assert_eq!(s.all_input(), b"hi\nyo\n");
    s.client_disconnected();
    assert_eq!(s.client_connected(), 2);
}

#[test]
fn future_is_ready_on_the_sixth_poll() {
    let mut f = learning_rust::basics::BadFuture { count: 0 };
    let mut polls = 0;
    loop {
        polls += 1;
        if f.poll_step() {
            break;
        }
    }
    assert_eq!(polls, 6);
    assert_eq!(f.count, 5);
}

#[test]
fn checked_sum_of_even_numbers() {
    assert_eq!(try_sum_of_even(1, 100), Some(2550));
    assert_eq!(try_sum_of_even(5, 4), Some(0));
    assert_eq!(try_sum_of_even(u64::MAX - 3, u64::MAX), None);
}
