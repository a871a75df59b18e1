//! Warm-up exercises: picking one of two strings, summing the even numbers
//! of a range, reading an unsigned integer from a file's text, and the
//! bookkeeping of a line-echo server that serves several clients.

use vstd::prelude::*;
use vstd::string::StringSliceAdditionalSpecFns;
use crate::bytes::{is_digit, push_bytes};

verus! {

// ---------------------------------------------------------------------------
// Small functions
// ---------------------------------------------------------------------------

/// The first string if `option`, else the second.
pub fn either<'a>(a: &'a str, b: &'a str, option: bool) -> (r: &'a str)
    ensures
        r@ == (if option {
            a@
        } else {
            b@
        }),
{
    if option {
        a
    } else {
        b
    }
}

/// The sum of the even numbers from `start` to `end`, both included.
pub open spec fn even_sum(start: int, end: int) -> int
    decreases end - start + 1,
{
    if end < start {
        0
    } else {
        even_sum(start, end - 1) + if end % 2 == 0 {
            end
        } else {
            0
        }
    }
}

/// Extending the range can only add to the sum.
pub proof fn lemma_even_sum_grows(start: int, a: int, b: int)
    requires
        0 <= start,
        a <= b,
    ensures
        even_sum(start, a) <= even_sum(start, b),
    decreases b - a,
{
    if a < b {
        lemma_even_sum_grows(start, a, b - 1);
    }
}

/// The sum of the even numbers from `start` to `end`, both included.
pub fn sum_of_even(start: u64, end: u64) -> (r: u64)
    requires
        even_sum(start as int, end as int) <= u64::MAX,
    ensures
        r == even_sum(start as int, end as int),
{
    if end < start {
        return 0;
    }
    let mut n: u64 = start;
    let mut total: u64 = 0;
    loop
        invariant
            start <= n <= end,
            total == even_sum(start as int, n - 1),
            even_sum(start as int, end as int) <= u64::MAX,
        decreases end - n,
    {
        proof {
            lemma_even_sum_grows(start as int, n as int, end as int);
        }
        if n % 2 == 0 {
            total = total + n;
        }
        if n == end {
            return total;
        }
        n = n + 1;
    }
}

/// The sum of the even numbers from `start` to `end`, both included, or
/// `None` where it does not fit in 64 bits.
pub fn try_sum_of_even(start: u64, end: u64) -> (r: Option<u64>)
    ensures
        match r {
            Some(v) => v == even_sum(start as int, end as int),
            None => even_sum(start as int, end as int) > u64::MAX,
        },
{
    if end < start {
        return Some(0);
    }
    let mut n: u64 = start;
    let mut total: u64 = 0;
    loop
        invariant
            start <= n <= end,
            total == even_sum(start as int, n - 1),
        decreases end - n,
    {
        if n % 2 == 0 {
            match total.checked_add(n) {
                Some(t) => {
                    total = t;
                },
                None => {
                    proof {
                        lemma_even_sum_grows(start as int, n as int, end as int);
                    }
                    return None;
                },
            }
        }
        if n == end {
            return Some(total);
        }
        n = n + 1;
    }
}

// ---------------------------------------------------------------------------
// A future that is ready on its sixth poll
// ---------------------------------------------------------------------------

/// The state of a future that asks to be polled again until it has been
/// polled five times.
pub struct BadFuture {
    pub count: usize,
}

impl BadFuture {
    /// One poll: ready once the count has reached five; else the count goes
    /// up by one and the future asks to be polled again.
    pub fn poll_step(&mut self) -> (ready: bool)
        requires
            old(self).count < usize::MAX,
        ensures
            ready == (old(self).count == 5),
            final(self).count == if ready {
                old(self).count
            } else {
                (old(self).count + 1) as usize
            },
    {
        if self.count == 5 {
            true
        } else {
            self.count = self.count + 1;
            false
        }
    }
}

// ---------------------------------------------------------------------------
// Reading an unsigned integer
// ---------------------------------------------------------------------------

/// Why a text is no unsigned 64-bit integer.
#[derive(Clone, Copy, Debug, PartialEq, Eq, Structural)]
pub enum IntErrorKind {
    /// The text is empty.
    Empty,
    /// A character is no digit (a lone `+` included).
    InvalidDigit,
    /// The number is larger than the largest 64-bit value.
    PosOverflow,
}

impl IntErrorKind {
    /// The message that describes the error.
    pub fn message(&self) -> (r: &'static str)
        ensures
            r@ == match self {
                IntErrorKind::Empty => "cannot parse integer from empty string"@,
                IntErrorKind::InvalidDigit => "invalid digit found in string"@,
                IntErrorKind::PosOverflow => "number too large to fit in target type"@,
            },
    {
        match self {
            IntErrorKind::Empty => "cannot parse integer from empty string",
            IntErrorKind::InvalidDigit => "invalid digit found in string",
            IntErrorKind::PosOverflow => "number too large to fit in target type",
        }
    }
}

/// The digits of an unsigned number: the text after a leading `+`, unless
/// the `+` is all there is.
pub open spec fn unsigned_digits(s: Seq<u8>) -> Seq<u8> {
    if s.len() > 1 && s[0] == 43u8 {
        s.subrange(1, s.len() as int)
    } else {
        s
    }
}

/// Reads the digits from position `k` on, with `acc` the value of those
/// before it: the first byte that is no digit, or the first digit that
/// takes the value past the largest 64-bit value, is the error.
pub open spec fn scan_digits(d: Seq<u8>, k: int, acc: nat) -> Result<u64, IntErrorKind>
    decreases d.len() - k,
{
    if k >= d.len() {
        if acc <= u64::MAX {
            Ok(acc as u64)
        } else {
            Err(IntErrorKind::PosOverflow)
        }
    } else if !is_digit(d[k]) {
        Err(IntErrorKind::InvalidDigit)
    } else if acc * 10 + (d[k] - 48) > u64::MAX {
        Err(IntErrorKind::PosOverflow)
    } else {
        scan_digits(d, k + 1, (acc * 10 + (d[k] - 48)) as nat)
    }
}

/// The unsigned integer a text spells: an optional `+`, then decimal
/// digits only.
pub open spec fn int_of_text(s: Seq<u8>) -> Result<u64, IntErrorKind> {
    if s.len() == 0 {
        Err(IntErrorKind::Empty)
    } else {
        scan_digits(unsigned_digits(s), 0, 0)
    }
}

/// Reads the unsigned integer that a text spells.
pub fn int_from_text(text: &str) -> (r: Result<u64, IntErrorKind>)
    ensures
        r == int_of_text(text.spec_bytes()),
{
    let s: &[u8] = text.as_bytes();
    if s.len() == 0 {
        return Err(IntErrorKind::Empty);
    }
    let start: usize = if s.len() > 1 && s[0] == 43u8 {
        1
    } else {
        0
    };
    let ghost d = unsigned_digits(s@);
    assert(d =~= s@.subrange(start as int, s@.len() as int));
    let mut k: usize = start;
    let mut acc: u64 = 0;
    while k < s.len()
        invariant
            start <= k <= s.len(),
            s@ == text.spec_bytes(),
            s@.len() > 0,
            d == unsigned_digits(s@),
            d == s@.subrange(start as int, s@.len() as int),
            scan_digits(d, 0, 0) == scan_digits(d, k - start, acc as nat),
        decreases s.len() - k,
    {
        let b: u8 = s[k];
        assert(d[k - start] == b);
        if b < 48u8 || b > 57u8 {
            return Err(IntErrorKind::InvalidDigit);
        }
        let next: u128 = (acc as u128) * 10 + ((b - 48u8) as u128);
        if next > 18446744073709551615u128 {
            return Err(IntErrorKind::PosOverflow);
        }
        acc = next as u64;
        k = k + 1;
    }
    Ok(acc)
}

// ---------------------------------------------------------------------------
// The echo server's bookkeeping
// ---------------------------------------------------------------------------

/// What happened while a client was served.
pub enum ClientEvent {
    /// The server is shutting down.
    Cancelled,
    /// Reading from the client failed.
    ReadFailed,
    /// A line was read; an empty one means the client has gone.
    Read(Vec<u8>),
}

/// What to do next with a client.
#[derive(Clone, Copy, Debug, PartialEq, Eq, Structural)]
pub enum ClientAction {
    /// Stop serving the client.
    Stop,
    /// Send the line back; it is line `line_number` of all received.
    Echo { line_number: usize },
}

/// The counts and the text that all clients share: clients connected,
/// lines received and every line received, in order.
pub struct EchoServer {
    active_clients: usize,
    line_counter: usize,
    all_input: Vec<u8>,
}

impl EchoServer {
    /// The number of clients connected.
    pub closed spec fn clients(&self) -> usize {
        self.active_clients
    }

    /// The number of lines received.
    pub closed spec fn lines(&self) -> usize {
        self.line_counter
    }

    /// Every line received, in order.
    pub closed spec fn input(&self) -> Seq<u8> {
        self.all_input@
    }

    /// No clients and no lines yet.
    pub fn new() -> (r: EchoServer)
        ensures
            r.clients() == 0,
            r.lines() == 0,
            r.input() == Seq::<u8>::empty(),
    {
        EchoServer { active_clients: 0, line_counter: 0, all_input: Vec::new() }
    }

    /// A client connected; gives the number now connected (counts wrap
    /// around as the shared counters do).
    pub fn client_connected(&mut self) -> (r: usize)
        ensures
            r == final(self).clients(),
            final(self).clients() == old(self).clients().wrapping_add(1),
            final(self).lines() == old(self).lines(),
            final(self).input() == old(self).input(),
    {
        self.active_clients = self.active_clients.wrapping_add(1);
        self.active_clients
    }

    /// A client left.
    pub fn client_disconnected(&mut self)
        ensures
            final(self).clients() == old(self).clients().wrapping_sub(1),
            final(self).lines() == old(self).lines(),
            final(self).input() == old(self).input(),
    {
        self.active_clients = self.active_clients.wrapping_sub(1);
    }

    /// What to do after an event: stop on shutdown, on a failed read and
    /// when the client has gone; else count the line, keep it and send it
    /// back.
    pub fn client_event(&mut self, event: &ClientEvent) -> (r: ClientAction)
        ensures
            match event {
                ClientEvent::Read(line) if line@.len() > 0 => {
                    &&& r == ClientAction::Echo { line_number: final(self).lines() }
                    &&& final(self).lines() == old(self).lines().wrapping_add(1)
                    &&& final(self).input() == old(self).input() + line@
                    &&& final(self).clients() == old(self).clients()
                },
                _ => {
                    &&& r == ClientAction::Stop
                    &&& final(self).lines() == old(self).lines()
                    &&& final(self).input() == old(self).input()
                    &&& final(self).clients() == old(self).clients()
                },
            },
    {
        match event {
            ClientEvent::Cancelled => ClientAction::Stop,
            ClientEvent::ReadFailed => ClientAction::Stop,
            ClientEvent::Read(line) => {
                if line.len() == 0 {
                    return ClientAction::Stop;
                }
                self.line_counter = self.line_counter.wrapping_add(1);
                push_bytes(&mut self.all_input, line.as_slice());
                ClientAction::Echo { line_number: self.line_counter }
            },
        }
    }

    /// Every line received, in order.
    pub fn all_input(&self) -> (r: &[u8])
        ensures
            r@ == self.input(),
    {
        self.all_input.as_slice()
    }
}

} // verus!
