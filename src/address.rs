//! Decimal numbers, ports and dotted-quad IPv4 addresses as typed by users.
use vstd::prelude::*;

verus! {

/// The port that the chat listens on and connects to unless told otherwise.
pub const DEFAULT_PORT: u16 = 9567;

/// The byte `.` that separates the octets of an address.
pub const DOT: u8 = 0x2e;

/// The byte `+` that may lead a number.
pub const PLUS: u8 = 0x2b;

pub open spec fn is_digit(b: u8) -> bool {
    0x30 <= b <= 0x39
}

pub open spec fn all_digits(s: Seq<u8>) -> bool {
    forall|i: int| 0 <= i < s.len() ==> is_digit(#[trigger] s[i])
}

/// The value of a string of decimal digits.
pub open spec fn digits_value(s: Seq<u8>) -> nat
    decreases s.len(),
{
    if s.len() == 0 {
        0
    } else {
        digits_value(s.drop_last()) * 10 + (s.last() - 0x30) as nat
    }
}

/// The digits of a number: the text without one leading `+`.
pub open spec fn unsigned_digits(s: Seq<u8>) -> Seq<u8> {
    if s.len() > 0 && s[0] == PLUS {
        s.drop_first()
    } else {
        s
    }
}

/// The unsigned number that `s` spells, if it spells one no larger than
/// `max`: an optional `+`, then one or more decimal digits.
pub open spec fn decimal_value(s: Seq<u8>, max: nat) -> Option<nat> {
    let d = unsigned_digits(s);
    if d.len() > 0 && all_digits(d) && digits_value(d) <= max {
        Some(digits_value(d))
    } else {
        None
    }
}

proof fn lemma_digits_grow(s: Seq<u8>, d: u8)
    requires
        is_digit(d),
    ensures
        digits_value(s.push(d)) >= digits_value(s),
        digits_value(s.push(d)) == digits_value(s) * 10 + (d - 0x30) as nat,
{
    assert(s.push(d).drop_last() == s);
}

/// Reads the number in `s[start..end]`, as `decimal_value` says, for a
/// bound `max` that fits in 16 bits.
fn parse_decimal(s: &[u8], start: usize, end: usize, max: u32) -> (r: Option<u32>)
    requires
        start <= end <= s@.len(),
        max <= 0xffff,
    ensures
        match decimal_value(s@.subrange(start as int, end as int), max as nat) {
            Some(v) => r == Some(v as u32),
            None => r is None,
        },
{
    let ghost text = s@.subrange(start as int, end as int);
    let mut i = start;
    if i < end && s[i] == PLUS {
        i = i + 1;
    }
    let ghost first = i;
    assert(unsigned_digits(text) == s@.subrange(first as int, end as int));
    if i == end {
        return None;
    }
    // the value read so far, or max + 1 once it is larger than max
    let mut value: u32 = 0;
    while i < end
        invariant
            start <= first <= i <= end <= s@.len(),
            first < end,
            max <= 0xffff,
            unsigned_digits(s@.subrange(start as int, end as int)) == s@.subrange(
                first as int,
                end as int,
            ),
            all_digits(s@.subrange(first as int, i as int)),
            value == if digits_value(s@.subrange(first as int, i as int)) <= max {
                digits_value(s@.subrange(first as int, i as int)) as int
            } else {
                max + 1
            },
        decreases end - i,
    {
        let b = s[i];
        if !(0x30 <= b && b <= 0x39) {
            assert(!all_digits(s@.subrange(first as int, end as int))) by {
                assert(s@.subrange(first as int, end as int)[i - first] == b);
            }
            return None;
        }
        let ghost before = s@.subrange(first as int, i as int);
        assert(s@.subrange(first as int, i + 1) == before.push(b));
        proof {
            lemma_digits_grow(before, b);
        }
        let next = value * 10 + (b - 0x30) as u32;
        if next > max {
            value = max + 1;
        } else {
            value = next;
        }
        i = i + 1;
    }
    if value > max {
        None
    } else {
        Some(value)
    }
}

/// Reads a port number: an optional `+`, then decimal digits, at most 65535.
pub fn parse_port(s: &[u8]) -> (r: Option<u16>)
    ensures
        match decimal_value(s@, 0xffff) {
            Some(v) => r == Some(v as u16),
            None => r is None,
        },
{
    assert(s@.subrange(0, s@.len() as int) == s@);
    match parse_decimal(s, 0, s.len(), 0xffff) {
        Some(v) => Some(v as u16),
        None => None,
    }
}

/// The parts of `s` between dots; there is one more part than there are dots.
pub open spec fn split_dots(s: Seq<u8>) -> Seq<Seq<u8>>
    decreases s.len(),
{
    if s.len() == 0 {
        seq![Seq::empty()]
    } else {
        let parts = split_dots(s.drop_last());
        if s.last() == DOT {
            parts.push(Seq::empty())
        } else {
            parts.update(parts.len() - 1, parts.last().push(s.last()))
        }
    }
}

/// An octet of an address: its number, or 0 where the text is not a number
/// from 0 to 255.
pub open spec fn octet(part: Seq<u8>) -> u8 {
    match decimal_value(part, 255) {
        Some(v) => v as u8,
        None => 0,
    }
}

/// The four octets of a dotted-quad address.
pub open spec fn ipv4_octets(s: Seq<u8>) -> Seq<u8> {
    Seq::new(4, |j: int| octet(split_dots(s)[j]))
}

/// A part of an address that is not a number from 0 to 255 gives the
/// octet 0.
pub proof fn lemma_bad_octet_is_zero(part: Seq<u8>)
    requires
        decimal_value(part, 255) is None,
    ensures
        octet(part) == 0,
{
}

/// Why an address could not be read.
#[derive(Debug, Clone, Copy, PartialEq, Eq, Structural)]
pub enum AddressError {
    /// The address does not have exactly four parts.
    WrongPartCount,
}

proof fn lemma_split_dots_nonempty(s: Seq<u8>)
    ensures
        split_dots(s).len() >= 1,
    decreases s.len(),
{
    if s.len() > 0 {
        lemma_split_dots_nonempty(s.drop_last());
    }
}

/// Reads a dotted-quad IPv4 address: exactly four parts between dots, each
/// read as an octet, where a part that is not a number counts as 0.
pub fn parse_ipv4(address: &[u8]) -> (r: Result<[u8; 4], AddressError>)
    ensures
        split_dots(address@).len() == 4 ==> (r matches Ok(octets) && octets@ == ipv4_octets(
            address@,
        )),
        split_dots(address@).len() != 4 ==> r == Err::<[u8; 4], AddressError>(
            AddressError::WrongPartCount,
        ),
{
    let s = address;
    let ghost text = s@;
    let mut octets: Vec<u8> = Vec::new();
    let mut start: usize = 0;
    let mut i: usize = 0;
    assert(text.subrange(0, 0) == Seq::<u8>::empty());
    while i < s.len()
        invariant
            text == s@,
            start <= i <= s@.len(),
            split_dots(text.subrange(0, i as int)).len() == octets@.len() + 1,
            split_dots(text.subrange(0, i as int)).last() == text.subrange(start as int, i as int),
            forall|j: int|
                0 <= j < octets@.len() ==> octets@[j] == octet(
                    #[trigger] split_dots(text.subrange(0, i as int))[j],
                ),
        decreases s@.len() - i,
    {
        let ghost before = text.subrange(0, i as int);
        assert(text.subrange(0, i + 1).drop_last() == before);
        proof {
            lemma_split_dots_nonempty(before);
        }
        if s[i] == DOT {
            let part = parse_decimal(s, start, i, 255);
            let o: u8 = match part {
                Some(v) => v as u8,
                None => 0,
            };
            octets.push(o);
            start = i + 1;
            assert(text.subrange(start as int, i + 1) == Seq::<u8>::empty());
        } else {
            assert(text.subrange(start as int, i + 1) == text.subrange(start as int, i as int).push(
                s[i as int],
            ));
        }
        i = i + 1;
    }
    assert(text.subrange(0, i as int) == text);
    if octets.len() != 3 {
        return Err(AddressError::WrongPartCount);
    }
    let last = parse_decimal(s, start, i, 255);
    let o: u8 = match last {
        Some(v) => v as u8,
        None => 0,
    };
    let r = [octets[0], octets[1], octets[2], o];
    assert(r@ == ipv4_octets(text));
    Ok(r)
}

} // verus!
