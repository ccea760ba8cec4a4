//! Numbers and addresses in text.

use vstd::prelude::*;

verus! {

/// What is wrong with a number.
#[derive(Copy, Clone, Debug, PartialEq, Eq, Structural)]
pub enum NumFault {
    /// There are no digits at all.
    Empty,
    /// A character is no digit.
    InvalidDigit,
    /// The number is too large.
    TooLarge,
}

pub open spec fn is_digit(c: u8) -> bool {
    0x30 <= c <= 0x39
}

/// The number that starts with `acc` and goes on with the digits of `b` from `i` on.
/// The first fault from the left counts.
pub open spec fn digits(b: Seq<u8>, i: int, acc: int, top: int) -> Result<int, NumFault>
    decreases b.len() - i,
{
    if i >= b.len() {
        Ok(acc)
    } else if !is_digit(b[i]) {
        Err(NumFault::InvalidDigit)
    } else if acc * 10 + (b[i] - 0x30) > top {
        Err(NumFault::TooLarge)
    } else {
        digits(b, i + 1, acc * 10 + (b[i] - 0x30), top)
    }
}

/// The decimal number up to `top` that `b` spells, with or without a plus sign.
pub open spec fn decimal(b: Seq<u8>, top: int) -> Result<int, NumFault> {
    if b.len() == 0 {
        Err(NumFault::Empty)
    } else if b[0] == 0x2B {
        if b.len() == 1 {
            Err(NumFault::InvalidDigit)
        } else {
            digits(b, 1, 0, top)
        }
    } else {
        digits(b, 0, 0, top)
    }
}

/// Reads a decimal number up to `top`.
pub fn parse_decimal(b: &[u8], top: u64) -> (r: Result<u64, NumFault>)
    ensures
        match decimal(b@, top as int) {
            Ok(n) => r matches Ok(m) && m == n,
            Err(e) => r == Err::<u64, NumFault>(e),
        },
        r matches Ok(m) ==> m <= top,
{
    if b.len() == 0 {
        return Err(NumFault::Empty);
    }
    let mut i: usize = 0;
    if b[0] == 0x2B {
        if b.len() == 1 {
            return Err(NumFault::InvalidDigit);
        }
        i = 1;
    }
    let mut acc: u64 = 0;
    while i < b.len()
        invariant
            i <= b@.len(),
            acc <= top,
            decimal(b@, top as int) == digits(b@, i as int, acc as int, top as int),
        decreases b@.len() - i,
    {
        let c: u8 = b[i];
        if !(0x30 <= c && c <= 0x39) {
            return Err(NumFault::InvalidDigit);
        }
        let wide: u128 = acc as u128 * 10 + (c - 0x30) as u128;
        if wide > top as u128 {
            return Err(NumFault::TooLarge);
        }
        acc = wide as u64;
        i = i + 1;
    }
    Ok(acc)
}

/// Index of the first dot of `b` from `i` on, or the length of `b`.
pub open spec fn next_dot(b: Seq<u8>, i: int) -> int
    decreases b.len() - i,
{
    if i >= b.len() || b[i] == 0x2E {
        i
    } else {
        next_dot(b, i + 1)
    }
}

/// How many dots there are in `b` from `i` on.
pub open spec fn dots(b: Seq<u8>, i: int) -> int
    decreases b.len() - i,
{
    if i >= b.len() {
        0
    } else {
        dots(b, i + 1) + if b[i] == 0x2E {
            1int
        } else {
            0int
        }
    }
}

/// What is wrong with an IPv4 address.
#[derive(Copy, Clone, Debug, PartialEq, Eq, Structural)]
pub enum Ip4Fault {
    /// There are not four parts between dots.
    Parts,
    /// The part of this index is no byte.
    Octet(u8, NumFault),
}

/// The parts of a dotted address from the `k`-th on, which starts at `i`, behind
/// those in `acc`.
pub open spec fn octets(b: Seq<u8>, i: int, k: int, acc: Seq<u8>) -> Result<Seq<u8>, Ip4Fault>
    decreases 4 - k,
{
    if k >= 4 {
        Ok(acc)
    } else {
        match decimal(b.subrange(i, next_dot(b, i)), 255) {
            Err(e) => Err(Ip4Fault::Octet(k as u8, e)),
            Ok(n) => octets(b, next_dot(b, i) + 1, k + 1, acc.push(n as u8)),
        }
    }
}

/// The address that `b` spells.
pub open spec fn ip4(b: Seq<u8>) -> Result<Seq<u8>, Ip4Fault> {
    if dots(b, 0) != 3 {
        Err(Ip4Fault::Parts)
    } else {
        octets(b, 0, 0, Seq::empty())
    }
}

proof fn lemma_next_dot(b: Seq<u8>, i: int)
    requires
        0 <= i <= b.len(),
    ensures
        i <= next_dot(b, i) <= b.len(),
        next_dot(b, i) < b.len() ==> dots(b, i) == 1 + dots(b, next_dot(b, i) + 1),
        next_dot(b, i) == b.len() ==> dots(b, i) == 0,
    decreases b.len() - i,
{
    if i < b.len() && b[i] != 0x2E {
        lemma_next_dot(b, i + 1);
    }
}

fn find_dot(b: &[u8], from: usize) -> (e: usize)
    requires
        from <= b@.len(),
    ensures
        e == next_dot(b@, from as int),
        from <= e <= b@.len(),
{
    let mut i: usize = from;
    while i < b.len() && b[i] != 0x2E
        invariant
            from <= i <= b@.len(),
            next_dot(b@, from as int) == next_dot(b@, i as int),
        decreases b@.len() - i,
    {
        i = i + 1;
    }
    i
}

fn count_dots(b: &[u8]) -> (n: usize)
    ensures
        n == dots(b@, 0),
{
    let mut i: usize = b.len();
    let mut n: usize = 0;
    while i > 0
        invariant
            i <= b@.len(),
            n == dots(b@, i as int),
            n <= b@.len() - i,
        decreases i,
    {
        i = i - 1;
        if b[i] == 0x2E {
            n = n + 1;
        }
    }
    n
}

/// Reads an IPv4 address: four decimal bytes between dots.
pub fn parse_ip4(b: &[u8]) -> (r: Result<[u8; 4], Ip4Fault>)
    ensures
        match ip4(b@) {
            Ok(a) => r matches Ok(out) && out@ == a,
            Err(e) => r == Err::<[u8; 4], Ip4Fault>(e),
        },
{
    if count_dots(b) != 3 {
        return Err(Ip4Fault::Parts);
    }
    let len: usize = b.len();
    let mut out: [u8; 4] = [0, 0, 0, 0];
    let mut i: usize = 0;
    let mut k: usize = 0;
    assert(out@.take(0) =~= Seq::<u8>::empty());
    while k < 4
        invariant
            k <= 4,
            len == b@.len(),
            i <= len,
            k < 4 ==> dots(b@, i as int) == 3 - k,
            ip4(b@) == octets(b@, i as int, k as int, out@.take(k as int)),
        decreases 4 - k,
    {
        let e: usize = find_dot(b, i);
        proof {
            lemma_next_dot(b@, i as int);
            assert(k < 3 ==> e < b@.len());
        }
        let part: &[u8] = vstd::slice::slice_subrange(b, i, e);
        match parse_decimal(part, 255) {
            Err(f) => {
                return Err(Ip4Fault::Octet(k as u8, f));
            },
            Ok(n) => {
                let ghost before = out@;
                out[k] = n as u8;
                assert(out@.take(k as int + 1) =~= before.take(k as int).push(n as u8));
                assert(ip4(b@) == octets(b@, e as int + 1, k as int + 1, out@.take(k as int + 1)));
            },
        }
        if k < 3 {
            i = e + 1;
        }
        k = k + 1;
    }
    assert(out@.take(4) =~= out@);
    Ok(out)
}

/// The value of a hexadecimal digit.
pub open spec fn hex_value(c: u8) -> Option<u8> {
    if 0x30 <= c <= 0x39 {
        Some((c - 0x30) as u8)
    } else if 0x61 <= c <= 0x66 {
        Some((c - 0x61 + 10) as u8)
    } else if 0x41 <= c <= 0x46 {
        Some((c - 0x41 + 10) as u8)
    } else {
        None
    }
}

/// `b` is the hexadecimal form of a key of 16 bytes.
pub open spec fn is_hex32(b: Seq<u8>) -> bool {
    b.len() == 32 && forall|i: int| 0 <= i < 32 ==> hex_value(#[trigger] b[i]) is Some
}

/// The byte that two hexadecimal digits stand for.
pub open spec fn hex_byte(hi: u8, lo: u8) -> u8 {
    (hex_value(hi)->0 * 16 + hex_value(lo)->0) as u8
}

/// The key whose hexadecimal form is `b`.
pub open spec fn hex_key(b: Seq<u8>) -> Seq<u8> {
    Seq::new(16, |i: int| hex_byte(b[2 * i], b[2 * i + 1]))
}

pub fn hex_digit(b: u8) -> (r: Option<u8>)
    ensures
        r == hex_value(b),
        r matches Some(d) ==> d < 16,
{
    if 0x30 <= b && b <= 0x39 {
        Some(b - 0x30)
    } else if 0x61 <= b && b <= 0x66 {
        Some(b - 0x61 + 10)
    } else if 0x41 <= b && b <= 0x46 {
        Some(b - 0x41 + 10)
    } else {
        None
    }
}

/// Reads a key of 16 bytes in hexadecimal form.
pub fn parse_hex32(b: &[u8]) -> (r: Option<[u8; 16]>)
    ensures
        match r {
            Some(k) => is_hex32(b@) && k@ == hex_key(b@),
            None => !is_hex32(b@),
        },
{
    if b.len() != 32 {
        return None;
    }
    let mut out: [u8; 16] = [0; 16];
    let mut i: usize = 0;
    while i < 16
        invariant
            i <= 16,
            b@.len() == 32,
            forall|j: int| 0 <= j < 2 * i ==> hex_value(#[trigger] b@[j]) is Some,
            forall|j: int| 0 <= j < i ==> #[trigger] out@[j] == hex_byte(b@[2 * j], b@[2 * j + 1]),
        decreases 16 - i,
    {
        match (hex_digit(b[2 * i]), hex_digit(b[2 * i + 1])) {
            (Some(hi), Some(lo)) => {
                out[i] = hi * 16 + lo;
            },
            _ => {
                assert(hex_value(b@[2 * i as int]) is None || hex_value(b@[2 * i + 1]) is None);
                return None;
            },
        }
        i = i + 1;
    }
    assert(out@ =~= hex_key(b@));
    Some(out)
}

/// A digit more is ten times the number and the digit: what `b` spells, spelt with one more
/// digit `c`, is that, unless it is too large. Anything but a digit is a fault.
pub proof fn law_digit_appends(b: Seq<u8>, c: u8, top: int)
    requires
        decimal(b, top) is Ok,
    ensures
        ({
            let n = decimal(b, top)->Ok_0;
            let r = decimal(b.push(c), top);
            &&& 0x30 <= c <= 0x39 && 10 * n + (c - 0x30) <= top ==> r == Ok::<int, NumFault>(
                10 * n + (c - 0x30),
            )
            &&& 0x30 <= c <= 0x39 && 10 * n + (c - 0x30) > top ==> r == Err::<int, NumFault>(
                NumFault::TooLarge,
            )
            &&& !(0x30 <= c <= 0x39) ==> r == Err::<int, NumFault>(NumFault::InvalidDigit)
        }),
{
    assert(b.push(c)[0] == b[0]);
    if b[0] == 0x2B {
        lemma_digit_appends(b, c, 1, 0, top);
    } else {
        lemma_digit_appends(b, c, 0, 0, top);
    }
}

proof fn lemma_digit_appends(b: Seq<u8>, c: u8, i: int, acc: int, top: int)
    requires
        0 <= i <= b.len(),
        digits(b, i, acc, top) is Ok,
    ensures
        ({
            let n = digits(b, i, acc, top)->Ok_0;
            let r = digits(b.push(c), i, acc, top);
            &&& 0x30 <= c <= 0x39 && 10 * n + (c - 0x30) <= top ==> r == Ok::<int, NumFault>(
                10 * n + (c - 0x30),
            )
            &&& 0x30 <= c <= 0x39 && 10 * n + (c - 0x30) > top ==> r == Err::<int, NumFault>(
                NumFault::TooLarge,
            )
            &&& !(0x30 <= c <= 0x39) ==> r == Err::<int, NumFault>(NumFault::InvalidDigit)
        }),
    decreases b.len() - i,
{
    reveal_with_fuel(digits, 3);
    if i < b.len() {
        assert(b.push(c)[i] == b[i]);
        lemma_digit_appends(b, c, i + 1, acc * 10 + (b[i] - 0x30), top);
    } else {
        assert(b.push(c)[i] == c);
    }
}

/// One digit spells itself, a plus sign changes nothing, and nothing spells no number.
pub proof fn law_numbers_begin(b: Seq<u8>, c: u8, top: int)
    requires
        top >= 9,
    ensures
        0x30 <= c <= 0x39 ==> decimal(seq![c], top) == Ok::<int, NumFault>(c - 0x30),
        decimal(Seq::empty(), top) == Err::<int, NumFault>(NumFault::Empty),
        b.len() > 0 && b[0] != 0x2B ==> decimal(seq![0x2Bu8] + b, top) == decimal(b, top),
{
    reveal_with_fuel(digits, 3);
    if b.len() > 0 && b[0] != 0x2B {
        lemma_digits_shift(seq![0x2Bu8] + b, b, 0, 0, top);
    }
}

proof fn lemma_digits_shift(a: Seq<u8>, b: Seq<u8>, i: int, acc: int, top: int)
    requires
        a == seq![0x2Bu8] + b,
        0 <= i <= b.len(),
    ensures
        digits(a, i + 1, acc, top) == digits(b, i, acc, top),
    decreases b.len() - i,
{
    if i < b.len() {
        assert(a[i + 1] == b[i]);
        lemma_digits_shift(a, b, i + 1, acc * 10 + (b[i] - 0x30), top);
    }
}

/// Each byte has one hexadecimal form, but for the case of its letters: the high and the low
/// half are told by their digits.
pub proof fn law_hex_digits_tell_halves(hi: u8, lo: u8)
    requires
        hex_value(hi) is Some,
        hex_value(lo) is Some,
    ensures
        hex_byte(hi, lo) / 16 == hex_value(hi)->0,
        hex_byte(hi, lo) % 16 == hex_value(lo)->0,
        0x61 <= hi <= 0x66 ==> hex_value(hi) == hex_value((hi - 0x20) as u8),
        0x30 <= hi <= 0x39 ==> hex_value(hi) == Some((hi - 0x30) as u8),
        0x61 <= hi <= 0x66 ==> hex_value(hi) == Some((hi - 0x57) as u8),
{
}

} // verus!
