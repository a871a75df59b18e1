use learning_rust::monitoring::{
    header_to_str, is_success, trace_context_entries, GrpcCheckRequest, GrpcChecker, HeaderEntry, Headers,
    HttpChecker, RequestCounterInner,
};

fn headers(pairs: &[(&str, &[u8])]) -> Headers {
    Headers {
        entries: pairs
            .iter()
            .map(|(n, v)| HeaderEntry { name: n.as_bytes().to_vec(), value: v.to_vec() })
            .collect(),
    }
}

#[test]
fn header_values_read_as_visible_ascii() {
    assert_eq!(header_to_str(b"text/plain; q=1\t"), Some(&b"text/plain; q=1\t"[..]));
    assert_eq!(header_to_str(b""), Some(&b""[..]));
    assert_eq!(header_to_str(b"caf\xc3\xa9"), None);
    assert_eq!(header_to_str(b"a\x7f"), None);
    assert_eq!(header_to_str(b"a\nb"), None);
}

#[test]
fn header_lookup_ignores_case_and_takes_the_first() {
    let h = headers(&[("content-type", b"a"), ("x", b"b"), ("content-type", b"c")]);
    assert_eq!(h.get(b"Content-Type"), Some(&b"a"[..]));
    assert_eq!(h.get(b"X"), Some(&b"b"[..]));
    assert_eq!(h.get(b"y"), None);
}

#[test]
fn grpc_requests_are_monitored() {
    let c: GrpcCheckRequest<(), ()> = GrpcCheckRequest::new();
    assert!(c.should_monitor_response(&headers(&[("content-type", b"application/grpc")])));
    assert!(!c.should_monitor_response(&headers(&[("content-type", b"application/json")])));
    assert!(!c.should_monitor_response(&headers(&[])));
    let g: GrpcChecker<(), ()> = GrpcChecker::new();
    assert!(g.should_monitor_response(&headers(&[("content-type", b"application/grpc")])));
}

#[test]
fn grpc_success_needs_status_and_grpc_status() {
    let c: GrpcCheckRequest<(), ()> = GrpcCheckRequest::new();
    assert!(c.is_successful_response(200, &headers(&[])));
    assert!(c.is_successful_response(204, &headers(&[("grpc-status", b"0")])));
    assert!(!c.is_successful_response(200, &headers(&[("grpc-status", b"13")])));
    assert!(!c.is_successful_response(500, &headers(&[("grpc-status", b"0")])));
    assert!(!c.is_successful_response(300, &headers(&[])));
    assert!(c.is_successful_response(299, &headers(&[])));
}

#[test]
fn http_checker_counts_every_request() {
    let c: HttpChecker<(), ()> = HttpChecker::new();
    assert!(c.should_monitor_response(&headers(&[])));
    assert!(c.is_successful_response(201, &headers(&[])));
    assert!(!c.is_successful_response(404, &headers(&[])));
    assert!(!c.is_successful_response(199, &headers(&[])));
    assert!(is_success(200));
}

#[test]
fn counts_never_show_more_successes_than_requests() {
    let mut c = RequestCounterInner::new();
    assert_eq!(c.counts(), (0, 0));
    assert_eq!(c.record(true), (1, 1));
    assert_eq!(c.record(false), (1, 2));
    assert_eq!(c.record(true), (2, 3));
    assert_eq!(c.counts(), (2, 3));
}

#[test]
fn trace_headers_are_picked_out() {
    let h = headers(&[
        ("uber-trace-id", b"abc:1:0:1"),
        ("content-type", b"x"),
        ("uberctx-user", b"bob"),
        ("uberctx-bad", b"\xff"),
        ("uberct", b"no"),
        ("uberctx-user", b"eve"),
    ]);
    let found = trace_context_entries(&h);
    assert_eq!(
        found,
        vec![
            (b"uber-trace-id".to_vec(), b"abc:1:0:1".to_vec()),
            (b"uberctx-user".to_vec(), b"bob".to_vec()),
            (b"uberctx-user".to_vec(), b"eve".to_vec()),
        ]
    );
}
