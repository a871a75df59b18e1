//! Text operations on byte strings, each stated as the string operation of
//! the same name that it performs: finding, splitting, trimming, replacing,
//! breaking into lines and reading decimal integers.

use vstd::prelude::*;

verus! {

/// `pat` occurs in `s` starting at `i`.
pub open spec fn occurs_at(s: Seq<u8>, pat: Seq<u8>, i: int) -> bool {
    0 <= i && i + pat.len() <= s.len() && s.subrange(i, i + pat.len()) == pat
}

/// `i` is the first position at which `pat` occurs in `s`.
pub open spec fn first_at(s: Seq<u8>, pat: Seq<u8>, i: int) -> bool {
    occurs_at(s, pat, i) && forall|j: int| 0 <= j < i ==> !#[trigger] occurs_at(s, pat, j)
}

/// The first position at which `pat` occurs in `s`, if any.
pub open spec fn find(s: Seq<u8>, pat: Seq<u8>) -> Option<int> {
    if exists|i: int| #[trigger] first_at(s, pat, i) {
        Some(choose|i: int| #[trigger] first_at(s, pat, i))
    } else {
        None
    }
}

/// A pattern has at most one first position.
pub proof fn lemma_first_at_unique(s: Seq<u8>, pat: Seq<u8>, i: int, j: int)
    requires
        first_at(s, pat, i),
        first_at(s, pat, j),
    ensures
        i == j,
{
    if i < j {
        assert(!occurs_at(s, pat, i));
    }
    if j < i {
        assert(!occurs_at(s, pat, j));
    }
}

/// Where `find` finds the pattern, the pattern occurs there first.
pub proof fn lemma_find_some(s: Seq<u8>, pat: Seq<u8>)
    requires
        find(s, pat) is Some,
    ensures
        first_at(s, pat, find(s, pat)->0),
        0 <= find(s, pat)->0,
        find(s, pat)->0 + pat.len() <= s.len(),
{
}

/// The text before and after the first occurrence of `pat`.
pub open spec fn split_once(s: Seq<u8>, pat: Seq<u8>) -> Option<(Seq<u8>, Seq<u8>)> {
    match find(s, pat) {
        Some(i) => Some((s.subrange(0, i), s.subrange(i + pat.len(), s.len() as int))),
        None => None,
    }
}

/// The pieces of `s` between the occurrences of `pat`, found left to right
/// without overlap; a text without `pat` is one piece.
pub open spec fn split(s: Seq<u8>, pat: Seq<u8>) -> Seq<Seq<u8>>
    decreases s.len(),
{
    if pat.len() == 0 {
        seq![s]
    } else {
        match find(s, pat) {
            Some(i) => if 0 <= i && i + pat.len() <= s.len() {
                seq![s.subrange(0, i)] + split(s.subrange(i + pat.len(), s.len() as int), pat)
            } else {
                seq![s]
            },
            None => seq![s],
        }
    }
}

/// `s` with every occurrence of `from` (found as `split` finds them)
/// replaced by `to`.
pub open spec fn replace(s: Seq<u8>, from: Seq<u8>, to: Seq<u8>) -> Seq<u8>
    decreases s.len(),
{
    if from.len() == 0 {
        s
    } else {
        match find(s, from) {
            Some(i) => if 0 <= i && i + from.len() <= s.len() {
                s.subrange(0, i) + to + replace(s.subrange(i + from.len(), s.len() as int), from, to)
            } else {
                s
            },
            None => s,
        }
    }
}

/// `s` ends with `pat`.
pub open spec fn ends_with(s: Seq<u8>, pat: Seq<u8>) -> bool {
    pat.len() <= s.len() && s.subrange(s.len() - pat.len(), s.len() as int) == pat
}

/// `s` with `pat` removed from its end for as long as it ends with it.
pub open spec fn trim_end_matches(s: Seq<u8>, pat: Seq<u8>) -> Seq<u8>
    decreases s.len(),
{
    if pat.len() > 0 && ends_with(s, pat) {
        trim_end_matches(s.subrange(0, s.len() - pat.len()), pat)
    } else {
        s
    }
}

/// The lines of `s`: pieces ended by a line feed (which, with a carriage
/// return just before it, is dropped), then the rest if it is not empty.
pub open spec fn lines(s: Seq<u8>) -> Seq<Seq<u8>>
    decreases s.len(),
{
    if s.len() == 0 {
        seq![]
    } else {
        match find(s, seq![10u8]) {
            Some(i) => if 0 <= i < s.len() {
                seq![strip_cr(s.subrange(0, i))] + lines(s.subrange(i + 1, s.len() as int))
            } else {
                seq![s]
            },
            None => seq![s],
        }
    }
}

/// A line without the carriage return that ended it.
pub open spec fn strip_cr(l: Seq<u8>) -> Seq<u8> {
    if l.len() > 0 && l.last() == 13u8 {
        l.drop_last()
    } else {
        l
    }
}

/// The contents of a sequence of byte slices.
pub open spec fn views(v: Seq<&[u8]>) -> Seq<Seq<u8>> {
    v.map_values(|p: &[u8]| p@)
}

/// Tests two byte strings for equality.
pub fn bytes_eq(a: &[u8], b: &[u8]) -> (r: bool)
    ensures
        r == (a@ == b@),
{
    if a.len() != b.len() {
        return false;
    }
    let mut i: usize = 0;
    while i < a.len()
        invariant
            a.len() == b.len(),
            i <= a.len(),
            forall|j: int| 0 <= j < i ==> a@[j] == b@[j],
        decreases a.len() - i,
    {
        if a[i] != b[i] {
            return false;
        }
        i = i + 1;
    }
    assert(a@ =~= b@);
    true
}

/// Whether `pat` occurs in `s` at `i`.
pub fn matches_at(s: &[u8], pat: &[u8], i: usize) -> (r: bool)
    ensures
        r == occurs_at(s@, pat@, i as int),
{
    if pat.len() > s.len() || i > s.len() - pat.len() {
        return false;
    }
    let mut k: usize = 0;
    while k < pat.len()
        invariant
            i + pat.len() <= s.len(),
            k <= pat.len(),
            forall|j: int| 0 <= j < k ==> s@[i + j] == pat@[j],
        decreases pat.len() - k,
    {
        if s[i + k] != pat[k] {
            assert(s@.subrange(i as int, i + pat.len())[k as int] != pat@[k as int]);
            return false;
        }
        k = k + 1;
    }
    assert(s@.subrange(i as int, i + pat.len()) =~= pat@);
    true
}

/// The first position at which `pat` occurs in `s`.
pub fn find_bytes(s: &[u8], pat: &[u8]) -> (r: Option<usize>)
    ensures
        match r {
            Some(i) => find(s@, pat@) == Some(i as int),
            None => find(s@, pat@) is None,
        },
{
    let mut i: usize = 0;
    loop
        invariant
            i <= s.len(),
            forall|j: int| 0 <= j < i ==> !#[trigger] occurs_at(s@, pat@, j),
        ensures
            forall|j: int| 0 <= j <= s.len() ==> !#[trigger] occurs_at(s@, pat@, j),
        decreases s.len() - i,
    {
        if matches_at(s, pat, i) {
            proof {
                assert(first_at(s@, pat@, i as int));
                let c: int = choose|c: int| #[trigger] first_at(s@, pat@, c);
                lemma_first_at_unique(s@, pat@, i as int, c);
            }
            return Some(i);
        }
        if i == s.len() {
            break;
        }
        i = i + 1;
    }
    proof {
        assert forall|c: int| !#[trigger] first_at(s@, pat@, c) by {
            if first_at(s@, pat@, c) {
                assert(occurs_at(s@, pat@, c));
            }
        }
    }
    None
}

/// The text before and after the first occurrence of `pat`.
pub fn split_once_bytes<'a>(s: &'a [u8], pat: &[u8]) -> (r: Option<(&'a [u8], &'a [u8])>)
    ensures
        match r {
            Some((a, b)) => split_once(s@, pat@) == Some((a@, b@)),
            None => split_once(s@, pat@) is None,
        },
{
    match find_bytes(s, pat) {
        Some(i) => {
            proof {
                lemma_find_some(s@, pat@);
                assert(i + pat.len() <= s.len());
            }
            Some((&s[0..i], &s[i + pat.len()..s.len()]))
        },
        None => None,
    }
}

/// The pieces of `s` between the occurrences of `pat`.
pub fn split_bytes<'a>(s: &'a [u8], pat: &[u8]) -> (r: Vec<&'a [u8]>)
    ensures
        views(r@) == split(s@, pat@),
{
    let mut pieces: Vec<&'a [u8]> = Vec::new();
    if pat.len() == 0 {
        pieces.push(s);
        assert(views(pieces@) =~= split(s@, pat@));
        return pieces;
    }
    let mut rest: &'a [u8] = s;
    loop
        invariant
            pat.len() > 0,
            views(pieces@) + split(rest@, pat@) == split(s@, pat@),
        decreases rest.len(),
    {
        match find_bytes(rest, pat) {
            Some(i) => {
                proof {
                    lemma_find_some(rest@, pat@);
                    assert(i + pat.len() <= rest.len());
                }
                let piece = &rest[0..i];
                let next = &rest[i + pat.len()..rest.len()];
                proof {
                    assert(split(rest@, pat@) == seq![piece@] + split(next@, pat@));
                    assert(views(pieces@).push(piece@) + split(next@, pat@) =~= views(pieces@)
                        + split(rest@, pat@));
                }
                let ghost prev = views(pieces@);
                pieces.push(piece);
                proof {
                    assert(views(pieces@) =~= prev.push(piece@));
                }
                rest = next;
            },
            None => {
                proof {
                    assert(split(rest@, pat@) == seq![rest@]);
                }
                let ghost prev = views(pieces@);
                pieces.push(rest);
                proof {
                    assert(views(pieces@) =~= prev.push(rest@));
                    assert(views(pieces@) =~= split(s@, pat@));
                }
                return pieces;
            },
        }
    }
}


/// Appends the bytes of `src` to `out`.
pub fn push_bytes(out: &mut Vec<u8>, src: &[u8])
    ensures
        final(out)@ == old(out)@ + src@,
{
    let ghost start = out@;
    let mut i: usize = 0;
    while i < src.len()
        invariant
            i <= src.len(),
            out@ == start + src@.subrange(0, i as int),
        decreases src.len() - i,
    {
        out.push(src[i]);
        i = i + 1;
        proof {
            assert(out@ =~= start + src@.subrange(0, i as int));
        }
    }
    proof {
        assert(src@.subrange(0, src.len() as int) =~= src@);
    }
}

/// Whether `s` ends with `pat`.
pub fn ends_with_bytes(s: &[u8], pat: &[u8]) -> (r: bool)
    ensures
        r == ends_with(s@, pat@),
{
    if pat.len() > s.len() {
        return false;
    }
    let r = matches_at(s, pat, s.len() - pat.len());
    proof {
        assert(s@.subrange(s.len() - pat.len(), s.len() - pat.len() + pat.len()) =~= s@.subrange(
            s.len() - pat.len(),
            s.len() as int,
        ));
    }
    r
}

/// `s` with `pat` removed from its end for as long as it ends with it.
pub fn trim_end_matches_bytes<'a>(s: &'a [u8], pat: &[u8]) -> (r: &'a [u8])
    ensures
        r@ == trim_end_matches(s@, pat@),
{
    let mut cur: &'a [u8] = s;
    while pat.len() > 0 && ends_with_bytes(cur, pat)
        invariant
            trim_end_matches(cur@, pat@) == trim_end_matches(s@, pat@),
        decreases cur.len(),
    {
        cur = &cur[0..cur.len() - pat.len()];
    }
    cur
}

/// `s` with every occurrence of `from` replaced by `to`.
pub fn replace_bytes(s: &[u8], from: &[u8], to: &[u8]) -> (r: Vec<u8>)
    ensures
        r@ == replace(s@, from@, to@),
{
    let mut out: Vec<u8> = Vec::new();
    if from.len() == 0 {
        push_bytes(&mut out, s);
        assert(out@ =~= s@);
        return out;
    }
    let mut rest: &[u8] = s;
    loop
        invariant
            from.len() > 0,
            out@ + replace(rest@, from@, to@) == replace(s@, from@, to@),
        decreases rest.len(),
    {
        match find_bytes(rest, from) {
            Some(i) => {
                proof {
                    lemma_find_some(rest@, from@);
                    assert(i + from.len() <= rest.len());
                }
                let ghost prev = out@;
                push_bytes(&mut out, &rest[0..i]);
                push_bytes(&mut out, to);
                let next = &rest[i + from.len()..rest.len()];
                proof {
                    assert(out@ + replace(next@, from@, to@) =~= prev + replace(rest@, from@, to@));
                }
                rest = next;
            },
            None => {
                let ghost prev = out@;
                push_bytes(&mut out, rest);
                proof {
                    assert(out@ =~= prev + replace(rest@, from@, to@));
                }
                return out;
            },
        }
    }
}

/// A line without the carriage return that ended it.
fn strip_cr_bytes<'a>(l: &'a [u8]) -> (r: &'a [u8])
    ensures
        r@ == strip_cr(l@),
{
    if l.len() > 0 && l[l.len() - 1] == 13u8 {
        let r = &l[0..l.len() - 1];
        assert(r@ =~= l@.drop_last());
        r
    } else {
        l
    }
}

/// The lines of `s`.
pub fn lines_bytes<'a>(s: &'a [u8]) -> (r: Vec<&'a [u8]>)
    ensures
        views(r@) == lines(s@),
{
    let mut out: Vec<&'a [u8]> = Vec::new();
    let mut rest: &'a [u8] = s;
    let nl: [u8; 1] = [10u8];
    let nl_slice: &[u8] = nl.as_slice();
    assert(nl_slice@ =~= seq![10u8]);
    loop
        invariant
            nl_slice@ == seq![10u8],
            views(out@) + lines(rest@) == lines(s@),
        decreases rest.len(),
    {
        if rest.len() == 0 {
            proof {
                assert(views(out@) =~= lines(s@));
            }
            return out;
        }
        match find_bytes(rest, nl_slice) {
            Some(i) => {
                proof {
                    lemma_find_some(rest@, nl_slice@);
                    assert(i < rest.len());
                }
                let line = strip_cr_bytes(&rest[0..i]);
                let next = &rest[i + 1..rest.len()];
                let ghost prev = views(out@);
                out.push(line);
                proof {
                    assert(views(out@) =~= prev.push(line@));
                    assert(views(out@) + lines(next@) =~= prev + lines(rest@));
                }
                rest = next;
            },
            None => {
                let ghost prev = views(out@);
                out.push(rest);
                proof {
                    assert(views(out@) =~= prev.push(rest@));
                    assert(views(out@) =~= lines(s@));
                }
                return out;
            },
        }
    }
}

/// `b` is an ASCII decimal digit.
pub open spec fn is_digit(b: u8) -> bool {
    48 <= b <= 57
}

/// Every byte of `d` is a decimal digit.
pub open spec fn all_digits(d: Seq<u8>) -> bool {
    forall|i: int| 0 <= i < d.len() ==> #[trigger] is_digit(d[i])
}

/// The number written by the decimal digits `d`.
pub open spec fn digits_value(d: Seq<u8>) -> nat
    decreases d.len(),
{
    if d.len() == 0 {
        0
    } else {
        digits_value(d.drop_last()) * 10 + (d.last() - 48) as nat
    }
}

/// The digits after an optional leading sign; `neg` tells whether the sign
/// was a minus.
pub open spec fn unsigned_part(s: Seq<u8>) -> Seq<u8> {
    if s.len() > 0 && (s[0] == 43u8 || s[0] == 45u8) {
        s.subrange(1, s.len() as int)
    } else {
        s
    }
}

/// A signed 32-bit integer written in decimal: an optional `+` or `-`, then
/// one or more digits, naming a value in range.
pub open spec fn parse_i32_spec(s: Seq<u8>) -> Option<i32> {
    let d = unsigned_part(s);
    if s.len() == 0 || d.len() == 0 || !all_digits(d) {
        None
    } else {
        let v: int = if s[0] == 45u8 {
            -digits_value(d)
        } else {
            digits_value(d) as int
        };
        if i32::MIN <= v <= i32::MAX {
            Some(v as i32)
        } else {
            None
        }
    }
}

/// A shorter prefix of a run of digits is worth no more than a longer one.
pub proof fn lemma_digits_grow(d: Seq<u8>, j: int, k: int)
    requires
        0 <= j <= k <= d.len(),
        all_digits(d),
    ensures
        digits_value(d.subrange(0, j)) <= digits_value(d.subrange(0, k)),
    decreases k - j,
{
    if j < k {
        lemma_digits_grow(d, j, k - 1);
        assert(d.subrange(0, k).drop_last() =~= d.subrange(0, k - 1));
    }
}

/// The value of the digits `d` if they are all digits and it is at most
/// `cap`.
fn digits_magnitude(d: &[u8], cap: u128) -> (r: Option<u128>)
    requires
        cap <= u64::MAX,
    ensures
        match r {
            Some(m) => all_digits(d@) && m == digits_value(d@) && m <= cap,
            None => !all_digits(d@) || digits_value(d@) > cap,
        },
{
    let mut m: u128 = 0;
    let mut i: usize = 0;
    while i < d.len()
        invariant
            cap <= u64::MAX,
            i <= d.len(),
            all_digits(d@.subrange(0, i as int)),
            m == digits_value(d@.subrange(0, i as int)),
            m <= cap,
        decreases d.len() - i,
    {
        let b: u8 = d[i];
        if b < 48u8 || b > 57u8 {
            proof {
                assert(!is_digit(d@[i as int]));
            }
            return None;
        }
        proof {
            assert(d@.subrange(0, i + 1).drop_last() =~= d@.subrange(0, i as int));
        }
        m = m * 10 + ((b - 48u8) as u128);
        i = i + 1;
        if m > cap {
            proof {
                if all_digits(d@) {
                    lemma_digits_grow(d@, i as int, d.len() as int);
                    assert(d@.subrange(0, d.len() as int) =~= d@);
                }
            }
            return None;
        }
    }
    proof {
        assert(d@.subrange(0, d.len() as int) =~= d@);
    }
    Some(m)
}

/// Reads a signed 32-bit integer written in decimal.
pub fn parse_i32(s: &[u8]) -> (r: Option<i32>)
    ensures
        r == parse_i32_spec(s@),
{
    if s.len() == 0 {
        return None;
    }
    let signed = s[0] == 43u8 || s[0] == 45u8;
    let neg = s[0] == 45u8;
    let d: &[u8] = if signed {
        &s[1..s.len()]
    } else {
        s
    };
    assert(d@ == unsigned_part(s@));
    if d.len() == 0 {
        return None;
    }
    match digits_magnitude(d, 2147483648u128) {
        None => None,
        Some(m) => {
            if neg {
                let v: i64 = m as i64;
                Some((-v) as i32)
            } else if m <= 2147483647u128 {
                Some(m as i32)
            } else {
                None
            }
        },
    }
}



/// The decimal digits of `n`, without leading zeros.
pub open spec fn decimal(n: nat) -> Seq<u8>
    decreases n,
{
    if n < 10 {
        seq![(48 + n) as u8]
    } else {
        decimal(n / 10).push((48 + n % 10) as u8)
    }
}

/// The decimal digits of `n` are digits, at least one, and have the value `n`.
pub proof fn lemma_decimal(n: nat)
    ensures
        decimal(n).len() >= 1,
        all_digits(decimal(n)),
        digits_value(decimal(n)) == n,
    decreases n,
{
    let d = (48 + n % 10) as u8;
    assert(d - 48 == n % 10);
    if n >= 10 {
        lemma_decimal(n / 10);
        assert(decimal(n).drop_last() =~= decimal(n / 10));
        assert(decimal(n).last() == d);
        assert(digits_value(decimal(n)) == digits_value(decimal(n / 10)) * 10 + (d - 48) as nat);
        assert(n == (n / 10) * 10 + n % 10);
    } else {
        assert(decimal(n).drop_last() =~= Seq::<u8>::empty());
        assert(digits_value(Seq::<u8>::empty()) == 0);
        assert(digits_value(decimal(n)) == digits_value(Seq::<u8>::empty()) * 10 + (d - 48) as nat);
    }
}

/// Appends `v` in decimal.
pub fn push_decimal(out: &mut Vec<u8>, v: u8)
    ensures
        final(out)@ == old(out)@ + decimal(v as nat),
{
    let ghost start = out@;
    proof {
        reveal_with_fuel(decimal, 3);
    }
    if v >= 100 {
        out.push(48u8 + v / 100);
    }
    if v >= 10 {
        out.push(48u8 + (v / 10) % 10);
    }
    out.push(48u8 + v % 10);
    proof {
        if v >= 100 {
            assert(decimal(v as nat) =~= seq![(48 + v / 100) as u8, (48 + (v / 10) % 10) as u8, (48
                + v % 10) as u8]);
        } else if v >= 10 {
            assert(decimal(v as nat) =~= seq![(48 + v / 10) as u8, (48 + v % 10) as u8]);
        }
        assert(out@ =~= start + decimal(v as nat));
    }
}

/// The bytes of an ASCII text.
pub open spec fn ascii(s: Seq<char>) -> Seq<u8> {
    s.map_values(|c: char| c as u8)
}

/// The bytes of an ASCII string.
pub fn ascii_bytes(s: &str) -> (v: &[u8])
    requires
        s.is_ascii(),
    ensures
        v@ == ascii(s@),
{
    proof {
        broadcast use vstd::string::is_ascii_spec_bytes;
    }
    let v = s.as_bytes();
    assert(v@ =~= ascii(s@));
    v
}

} // verus!
