//! What the request-monitoring layers decide: which requests are counted,
//! which responses count as successes, the running counts, and which
//! headers carry a propagated tracing context.
//!
//! Headers are held as plain bytes, in the order in which the header map
//! yields them; a header name is looked up without regard to ASCII case.

use vstd::prelude::*;
use std::marker::PhantomData;
use crate::bytes::{ascii, ascii_bytes, bytes_eq, matches_at, occurs_at};

verus! {

// ---------------------------------------------------------------------------
// Headers
// ---------------------------------------------------------------------------

/// A header: its name and its value.
pub struct HeaderEntry {
    pub name: Vec<u8>,
    pub value: Vec<u8>,
}

/// The headers of a request or a response, in order.
pub struct Headers {
    pub entries: Vec<HeaderEntry>,
}

/// The headers as pairs of name and value.
pub open spec fn header_pairs(h: Seq<HeaderEntry>) -> Seq<(Seq<u8>, Seq<u8>)> {
    h.map_values(|e: HeaderEntry| (e.name@, e.value@))
}

/// An ASCII letter in lower case; other bytes unchanged.
pub open spec fn lower_byte(b: u8) -> u8 {
    if 65 <= b <= 90 {
        (b + 32) as u8
    } else {
        b
    }
}

/// The bytes with ASCII letters in lower case.
pub open spec fn lower(s: Seq<u8>) -> Seq<u8> {
    s.map_values(|b: u8| lower_byte(b))
}

/// The value of the first header whose name is `name`, regardless of
/// ASCII case.
pub open spec fn find_header(h: Seq<(Seq<u8>, Seq<u8>)>, name: Seq<u8>) -> Option<Seq<u8>>
    decreases h.len(),
{
    if h.len() == 0 {
        None
    } else if lower(h[0].0) == lower(name) {
        Some(h[0].1)
    } else {
        find_header(h.subrange(1, h.len() as int), name)
    }
}

/// A byte that a header value may show as text: a visible ASCII
/// character, a space or a tab.
pub open spec fn visible_ascii(b: u8) -> bool {
    b == 9 || (32 <= b && b < 127)
}

/// A header value that reads as text: only visible ASCII.
pub open spec fn header_text_ok(v: Seq<u8>) -> bool {
    forall|i: int| 0 <= i < v.len() ==> #[trigger] visible_ascii(v[i])
}

fn lower_u8(b: u8) -> (r: u8)
    ensures
        r == lower_byte(b),
{
    if 65u8 <= b && b <= 90u8 {
        b + 32u8
    } else {
        b
    }
}

/// Whether two names are the same regardless of ASCII case.
fn same_name(a: &[u8], b: &[u8]) -> (r: bool)
    ensures
        r == (lower(a@) == lower(b@)),
{
    if a.len() != b.len() {
        proof {
            assert(lower(a@).len() != lower(b@).len());
        }
        return false;
    }
    let mut i: usize = 0;
    while i < a.len()
        invariant
            i <= a.len(),
            a.len() == b.len(),
            forall|k: int| 0 <= k < i ==> lower_byte(#[trigger] a@[k]) == lower_byte(b@[k]),
        decreases a.len() - i,
    {
        if lower_u8(a[i]) != lower_u8(b[i]) {
            proof {
                assert(lower(a@)[i as int] != lower(b@)[i as int]);
            }
            return false;
        }
        i = i + 1;
    }
    assert(lower(a@) =~= lower(b@));
    true
}

/// The header value as text, if it reads as text: the check that `http`'s
/// `HeaderValue::to_str` makes.
pub fn header_to_str(v: &[u8]) -> (r: Option<&[u8]>)
    ensures
        r is Some <==> header_text_ok(v@),
        r is Some ==> r->0@ == v@,
{
    let mut i: usize = 0;
    while i < v.len()
        invariant
            i <= v.len(),
            forall|k: int| 0 <= k < i ==> #[trigger] visible_ascii(v@[k]),
        decreases v.len() - i,
    {
        let b: u8 = v[i];
        if !(b == 9u8 || (32u8 <= b && b < 127u8)) {
            assert(!visible_ascii(v@[i as int]));
            return None;
        }
        i = i + 1;
    }
    Some(v)
}

impl Headers {
    /// The value of the first header named `name`, regardless of ASCII
    /// case.
    pub fn get(&self, name: &[u8]) -> (r: Option<&[u8]>)
        ensures
            match r {
                Some(v) => find_header(header_pairs(self.entries@), name@) == Some(v@),
                None => find_header(header_pairs(self.entries@), name@) is None,
            },
    {
        let ghost pairs = header_pairs(self.entries@);
        let mut i: usize = 0;
        assert(pairs.subrange(0, pairs.len() as int) =~= pairs);
        while i < self.entries.len()
            invariant
                i <= self.entries.len(),
                pairs == header_pairs(self.entries@),
                find_header(pairs, name@) == find_header(
                    pairs.subrange(i as int, pairs.len() as int),
                    name@,
                ),
            decreases self.entries.len() - i,
        {
            let e: &HeaderEntry = &self.entries[i];
            let ghost rest = pairs.subrange(i as int, pairs.len() as int);
            assert(rest[0] == (e.name@, e.value@));
            if same_name(e.name.as_slice(), name) {
                return Some(e.value.as_slice());
            }
            assert(rest.subrange(1, rest.len() as int) =~= pairs.subrange(
                i + 1,
                pairs.len() as int,
            ));
            i = i + 1;
        }
        None
    }
}

// ---------------------------------------------------------------------------
// Which requests are counted, which responses succeed
// ---------------------------------------------------------------------------

/// A status code of the success class, `200..=299`: the check of `http`'s
/// `StatusCode::is_success`.
pub open spec fn status_success(status: u16) -> bool {
    200 <= status && status < 300
}

/// A gRPC request: its content type reads as text and is
/// `application/grpc`.
pub open spec fn grpc_request(h: Seq<HeaderEntry>) -> bool {
    match find_header(header_pairs(h), ascii("Content-Type"@)) {
        Some(v) => header_text_ok(v) && v == ascii("application/grpc"@),
        None => false,
    }
}

/// A successful gRPC response: a success status, and a `grpc-status`
/// header that is `0` if there is one.
pub open spec fn grpc_success(status: u16, h: Seq<HeaderEntry>) -> bool {
    status_success(status) && match find_header(header_pairs(h), ascii("grpc-status"@)) {
        Some(v) => v == ascii("0"@),
        None => true,
    }
}

/// A request is counted as gRPC exactly when its first `content-type`
/// header (in any case) reads `application/grpc`; a gRPC response succeeds
/// exactly when its status is 200 to 299 and its first `grpc-status`
/// header, if any, reads `0`.
pub proof fn lemma_grpc_rules(h: Seq<HeaderEntry>, status: u16)
    ensures
        grpc_request(h) <==> find_header(header_pairs(h), ascii("content-type"@)) == Some(
            ascii("application/grpc"@),
        ),
        grpc_success(status, h) <==> (200 <= status <= 299 && (find_header(
            header_pairs(h),
            ascii("grpc-status"@),
        ) matches Some(v) ==> v == seq![48u8])),
{
    reveal_strlit("content-type");
    reveal_strlit("Content-Type");
    reveal_strlit("application/grpc");
    reveal_strlit("grpc-status");
    reveal_strlit("0");
    assert(lower(ascii("content-type"@)) =~= lower(ascii("Content-Type"@)));
    lemma_find_header_case(header_pairs(h), ascii("content-type"@), ascii("Content-Type"@));
    assert(ascii("0"@) =~= seq![48u8]);
    let v = ascii("application/grpc"@);
    assert forall|i: int| 0 <= i < v.len() implies #[trigger] visible_ascii(v[i]) by {}
}

/// Looking a header up by two names that differ only in ASCII case finds
/// the same header.
proof fn lemma_find_header_case(h: Seq<(Seq<u8>, Seq<u8>)>, a: Seq<u8>, b: Seq<u8>)
    requires
        lower(a) == lower(b),
    ensures
        find_header(h, a) == find_header(h, b),
    decreases h.len(),
{
    if h.len() > 0 {
        lemma_find_header_case(h.subrange(1, h.len() as int), a, b);
    }
}

/// Whether a status code is of the success class.
pub fn is_success(status: u16) -> (r: bool)
    ensures
        r == status_success(status),
{
    200u16 <= status && status < 300u16
}

fn grpc_request_check(req: &Headers) -> (r: bool)
    ensures
        r == grpc_request(req.entries@),
{
    proof {
        reveal_strlit("Content-Type");
        reveal_strlit("application/grpc");
    }
    match req.get(ascii_bytes("Content-Type")) {
        None => false,
        Some(v) => match header_to_str(v) {
            None => false,
            Some(t) => bytes_eq(t, ascii_bytes("application/grpc")),
        },
    }
}

fn grpc_success_check(status: u16, res: &Headers) -> (r: bool)
    ensures
        r == grpc_success(status, res.entries@),
{
    proof {
        reveal_strlit("grpc-status");
        reveal_strlit("0");
    }
    is_success(status) && match res.get(ascii_bytes("grpc-status")) {
        None => true,
        Some(v) => bytes_eq(v, ascii_bytes("0")),
    }
}

/// Counts gRPC requests, and their responses as successes when the status
/// and the gRPC status say so.
pub struct GrpcCheckRequest<I, O>(PhantomData<(I, O)>);

/// Counts every request, and its response as a success when the status
/// says so.
pub struct HttpChecker<I, O>(PhantomData<(I, O)>);

/// Counts gRPC requests, and their responses as successes when the status
/// and the gRPC status say so.
pub struct GrpcChecker<I, O>(PhantomData<(I, O)>);

impl<I, O> GrpcCheckRequest<I, O> {
    /// The checker.
    pub fn new() -> Self {
        GrpcCheckRequest(PhantomData)
    }

    /// Whether a request with these headers is counted.
    pub fn should_monitor_response(&self, req: &Headers) -> (r: bool)
        ensures
            r == grpc_request(req.entries@),
    {
        grpc_request_check(req)
    }

    /// Whether a response counts as a success.
    pub fn is_successful_response(&self, status: u16, res: &Headers) -> (r: bool)
        ensures
            r == grpc_success(status, res.entries@),
    {
        grpc_success_check(status, res)
    }
}

impl<I, O> GrpcChecker<I, O> {
    /// The checker.
    pub fn new() -> Self {
        GrpcChecker(PhantomData)
    }

    /// Whether a request with these headers is counted.
    pub fn should_monitor_response(&self, req: &Headers) -> (r: bool)
        ensures
            r == grpc_request(req.entries@),
    {
        grpc_request_check(req)
    }

    /// Whether a response counts as a success.
    pub fn is_successful_response(&self, status: u16, res: &Headers) -> (r: bool)
        ensures
            r == grpc_success(status, res.entries@),
    {
        grpc_success_check(status, res)
    }
}

impl<I, O> HttpChecker<I, O> {
    /// The checker.
    pub fn new() -> Self {
        HttpChecker(PhantomData)
    }

    /// Every request is counted.
    pub fn should_monitor_response(&self, req: &Headers) -> (r: bool)
        ensures
            r,
    {
        true
    }

    /// Whether a response counts as a success: its status does.
    pub fn is_successful_response(&self, status: u16, res: &Headers) -> (r: bool)
        ensures
            r == status_success(status),
    {
        is_success(status)
    }
}

// ---------------------------------------------------------------------------
// Counting
// ---------------------------------------------------------------------------

/// The counts of finished requests and of the successful ones among them.
pub struct RequestCounterInner {
    counter: usize,
    counter_success: usize,
}

impl RequestCounterInner {
    #[verifier::type_invariant]
    spec fn inv(self) -> bool {
        self.counter_success <= self.counter
    }

    /// The number of finished requests.
    pub closed spec fn total(self) -> nat {
        self.counter as nat
    }

    /// The number of successful requests.
    pub closed spec fn successes(self) -> nat {
        self.counter_success as nat
    }

    /// No requests counted yet.
    pub fn new() -> (r: RequestCounterInner)
        ensures
            r.total() == 0,
            r.successes() == 0,
    {
        RequestCounterInner { counter: 0, counter_success: 0 }
    }

    /// Counts a finished request, and a success if it was one; gives back
    /// the counts of successes and of requests.
    pub fn record(&mut self, success: bool) -> (r: (usize, usize))
        requires
            old(self).total() < usize::MAX,
        ensures
            final(self).total() == old(self).total() + 1,
            final(self).successes() == old(self).successes() + (if success {
                1nat
            } else {
                0nat
            }),
            r.0 == final(self).successes(),
            r.1 == final(self).total(),
            r.0 <= r.1,
    {
        proof {
            use_type_invariant(&*self);
        }
        self.counter = self.counter + 1;
        if success {
            self.counter_success = self.counter_success + 1;
        }
        (self.counter_success, self.counter)
    }

    /// The counts of successes and of requests.
    pub fn counts(&self) -> (r: (usize, usize))
        ensures
            r.0 == self.successes(),
            r.1 == self.total(),
            r.0 <= r.1,
    {
        proof {
            use_type_invariant(self);
        }
        (self.counter_success, self.counter)
    }
}

// ---------------------------------------------------------------------------
// Propagated tracing context
// ---------------------------------------------------------------------------

/// A header that carries tracing context: `uber-trace-id`, or a name that
/// starts with `uberctx-`.
pub open spec fn trace_header_name(n: Seq<u8>) -> bool {
    n == ascii("uber-trace-id"@) || occurs_at(n, ascii("uberctx-"@), 0)
}

/// The headers that carry tracing context and whose values read as text,
/// in order.
pub open spec fn trace_context_pairs(h: Seq<(Seq<u8>, Seq<u8>)>) -> Seq<(Seq<u8>, Seq<u8>)>
    decreases h.len(),
{
    if h.len() == 0 {
        seq![]
    } else {
        let rest = trace_context_pairs(h.drop_last());
        if trace_header_name(h.last().0) && header_text_ok(h.last().1) {
            rest.push(h.last())
        } else {
            rest
        }
    }
}

/// The headers that carry a propagated tracing context and whose values
/// read as text, in order; a later one of the same name replaces an
/// earlier one where the caller gathers them into a map.
pub fn trace_context_entries(headers: &Headers) -> (r: Vec<(Vec<u8>, Vec<u8>)>)
    ensures
        r@.map_values(|p: (Vec<u8>, Vec<u8>)| (p.0@, p.1@)) == trace_context_pairs(
            header_pairs(headers.entries@),
        ),
{
    proof {
        reveal_strlit("uber-trace-id");
        reveal_strlit("uberctx-");
    }
    let ghost pairs = header_pairs(headers.entries@);
    let trace_id: &[u8] = ascii_bytes("uber-trace-id");
    let ctx_prefix: &[u8] = ascii_bytes("uberctx-");
    let mut found: Vec<(Vec<u8>, Vec<u8>)> = Vec::new();
    let mut i: usize = 0;
    assert(pairs.subrange(0, 0) =~= Seq::<(Seq<u8>, Seq<u8>)>::empty());
    while i < headers.entries.len()
        invariant
            i <= headers.entries.len(),
            pairs == header_pairs(headers.entries@),
            trace_id@ == ascii("uber-trace-id"@),
            ctx_prefix@ == ascii("uberctx-"@),
            found@.map_values(|p: (Vec<u8>, Vec<u8>)| (p.0@, p.1@)) == trace_context_pairs(
                pairs.subrange(0, i as int),
            ),
        decreases headers.entries.len() - i,
    {
        let e: &HeaderEntry = &headers.entries[i];
        let ghost before = found@;
        assert(pairs.subrange(0, i + 1).drop_last() =~= pairs.subrange(0, i as int));
        assert(pairs.subrange(0, i + 1).last() == (e.name@, e.value@));
        let wanted: bool = bytes_eq(e.name.as_slice(), trace_id) || matches_at(
            e.name.as_slice(),
            ctx_prefix,
            0,
        );
        if wanted {
            match header_to_str(e.value.as_slice()) {
                Some(_) => {
                    found.push((e.name.clone(), e.value.clone()));
                    assert(found@.map_values(|p: (Vec<u8>, Vec<u8>)| (p.0@, p.1@)) =~= before.map_values(
                        |p: (Vec<u8>, Vec<u8>)| (p.0@, p.1@),
                    ).push((e.name@, e.value@)));
                },
                None => {},
            }
        }
        i = i + 1;
    }
    assert(pairs.subrange(0, pairs.len() as int) =~= pairs);
    found
}

} // verus!
