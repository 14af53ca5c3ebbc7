//! Numbers as text, and back.
//!
//! Quantities that are fractions (a load average, a share of a processor)
//! are kept as integers. A fraction reads in a message as its nearest shown
//! digit, of two that are equally near the even one.
use crate::text::{digit, is_digit};
use vstd::prelude::*;

verus! {

/// How many units of a [`Fixed`] make one.
pub const ONE: u64 = 4294967296;

/// A non-negative fraction in units of 2^-32.
#[derive(Clone, Copy, Debug, PartialEq, Eq, Structural)]
pub struct Fixed {
    pub bits: u64,
}

impl Fixed {
    /// The whole number `n`.
    pub fn whole(n: u32) -> (r: Fixed)
        ensures
            r.bits == n * ONE,
    {
        Fixed { bits: n as u64 * ONE }
    }
}

// ---------------------------------------------------------------- model

/// The decimal digit for `d`.
pub open spec fn digit_char(d: nat) -> char {
    (48 + d) as char
}

/// `n` in decimal, without leading zeros.
pub open spec fn decimal(n: nat) -> Seq<char>
    decreases n,
{
    if n < 10 {
        seq![digit_char(n)]
    } else {
        decimal(n / 10).push(digit_char(n % 10))
    }
}

/// `n` in decimal, with zeros in front up to two digits.
pub open spec fn two_digits(n: nat) -> Seq<char> {
    if n < 10 {
        seq!['0'] + decimal(n)
    } else {
        decimal(n)
    }
}

/// The integer nearest to `num / den`, the even one of two that are equally near.
pub open spec fn nearest(num: nat, den: nat) -> nat {
    let q = num / den;
    let r = num % den;
    if 2 * r > den || (2 * r == den && q % 2 == 1) {
        q + 1
    } else {
        q
    }
}

/// `num / den` to the nearest integer.
pub open spec fn units(num: nat, den: nat) -> Seq<char> {
    decimal(nearest(num, den))
}

/// `num / den` to one digit behind the point.
pub open spec fn tenths(num: nat, den: nat) -> Seq<char> {
    let v = nearest(num * 10, den);
    decimal(v / 10) + seq!['.'] + decimal(v % 10)
}

/// `num / den` to two digits behind the point.
pub open spec fn hundredths(num: nat, den: nat) -> Seq<char> {
    let v = nearest(num * 100, den);
    decimal(v / 100) + seq!['.'] + two_digits(v % 100)
}

pub open spec fn all_digits(s: Seq<char>) -> bool {
    forall|i: int| 0 <= i < s.len() ==> is_digit(#[trigger] s[i])
}

/// The number that decimal digits stand for.
pub open spec fn value(s: Seq<char>) -> nat
    decreases s.len(),
{
    if s.len() == 0 {
        0
    } else {
        value(s.drop_last()) * 10 + (s.last() as u32 - 48) as nat
    }
}

/// `s` without the plus sign it may start with.
pub open spec fn unsigned_part(s: Seq<char>) -> Seq<char> {
    if s.len() > 0 && s[0] == '+' {
        s.skip(1)
    } else {
        s
    }
}

/// The number that `s` spells: decimal digits, at least one, behind an
/// optional plus sign, and no more than `max`.
pub open spec fn parse_number(s: Seq<char>, max: nat) -> Option<nat> {
    let digits = unsigned_part(s);
    if digits.len() > 0 && all_digits(digits) && value(digits) <= max {
        Some(value(digits))
    } else {
        None
    }
}

// ------------------------------------------------------------- rendering

fn digit_of(d: u8) -> (c: char)
    requires
        d < 10,
    ensures
        c == digit_char(d as nat),
{
    (48u8 + d) as char
}

/// Appends `n` in decimal.
pub fn push_decimal(out: &mut String, n: u128)
    ensures
        final(out)@ == old(out)@ + decimal(n as nat),
    decreases n,
{
    let ghost before = out@;
    if n >= 10 {
        push_decimal(out, n / 10);
    }
    out.push(digit_of((n % 10) as u8));
    assert(out@ == before + decimal(n as nat));
}

pub fn decimal_text(n: u128) -> (r: String)
    ensures
        r@ == decimal(n as nat),
{
    let mut r: String = String::new();
    push_decimal(&mut r, n);
    assert(r@ == decimal(n as nat));
    r
}

pub fn two_digits_text(n: u64) -> (r: String)
    ensures
        r@ == two_digits(n as nat),
{
    let mut r: String = String::new();
    if n < 10 {
        r.push('0');
    }
    push_decimal(&mut r, n as u128);
    assert(r@ == two_digits(n as nat));
    r
}

/// The most that a numerator or a denominator may be: 2^122.
pub const WIDE: u128 = 5316911983139663491615228241121378304;

/// The integer nearest to `num / den`.
pub fn nearest_int(num: u128, den: u128) -> (r: u128)
    requires
        0 < den <= WIDE,
        num <= WIDE,
    ensures
        r == nearest(num as nat, den as nat),
        r <= num + 1,
{
    let d: u128 = den;
    let q: u128 = num / d;
    let r: u128 = num % d;
    assert(q <= num) by (nonlinear_arith)
        requires
            q == num / d,
            d > 0,
    ;
    if 2 * r > d || (2 * r == d && q % 2 == 1) {
        q + 1
    } else {
        q
    }
}

/// `num / den` to the nearest integer.
pub fn units_text(num: u128, den: u128) -> (r: String)
    requires
        0 < den <= WIDE,
        num <= WIDE,
    ensures
        r@ == units(num as nat, den as nat),
{
    decimal_text(nearest_int(num, den))
}

/// `num / den` to one digit behind the point.
pub fn tenths_text(num: u128, den: u128) -> (r: String)
    requires
        0 < den <= WIDE,
        num * 100 <= WIDE,
    ensures
        r@ == tenths(num as nat, den as nat),
{
    let v: u128 = nearest_int(num * 10, den);
    let mut r: String = decimal_text(v / 10);
    r.push('.');
    push_decimal(&mut r, v % 10);
    assert(r@ == tenths(num as nat, den as nat));
    r
}

/// `num / den` to two digits behind the point.
pub fn hundredths_text(num: u128, den: u128) -> (r: String)
    requires
        0 < den <= WIDE,
        num * 100 <= WIDE,
    ensures
        r@ == hundredths(num as nat, den as nat),
{
    let v: u128 = nearest_int(num * 100, den);
    let mut r: String = decimal_text(v / 100);
    r.push('.');
    if v % 100 < 10 {
        r.push('0');
    }
    push_decimal(&mut r, v % 100);
    assert(r@ == hundredths(num as nat, den as nat));
    r
}

// --------------------------------------------------------------- parsing

/// Digits stand for at least what the first of them stand for.
proof fn lemma_value_grows(s: Seq<char>, n: int)
    requires
        0 <= n <= s.len(),
        all_digits(s),
    ensures
        value(s.take(n)) <= value(s),
    decreases s.len() - n,
{
    if n < s.len() {
        lemma_value_grows(s, n + 1);
        assert(s.take(n + 1).drop_last() == s.take(n));
        assert(s.take(n + 1).last() == s[n]);
    } else {
        assert(s.take(n) == s);
    }
}

/// The number that the part of `cs` spells, if it is no more than `max`.
pub fn number_at(cs: &[char], from: usize, to: usize, max: u64) -> (r: Option<u64>)
    requires
        from <= to <= cs@.len(),
    ensures
        match r {
            Some(n) => parse_number(cs@.subrange(from as int, to as int), max as nat) == Some(
                n as nat,
            ),
            None => parse_number(cs@.subrange(from as int, to as int), max as nat) is None,
        },
{
    let ghost part = cs@.subrange(from as int, to as int);
    let mut start: usize = from;
    if from < to && cs[from] == '+' {
        start = from + 1;
    }
    let ghost digits = unsigned_part(part);
    assert(digits == cs@.subrange(start as int, to as int));
    if start == to {
        return None;
    }
    let mut acc: u64 = 0;
    let mut i: usize = start;
    while i < to
        invariant
            start <= i <= to <= cs@.len(),
            start < to,
            digits == cs@.subrange(start as int, to as int),
            digits == unsigned_part(part),
            all_digits(digits.take(i - start)),
            acc == value(digits.take(i - start)),
            acc <= max,
            part == cs@.subrange(from as int, to as int),
        decreases to - i,
    {
        let c = cs[i];
        assert(digits[i - start] == c);
        if !digit(c) {
            return None;
        }
        let d: u64 = (c as u32 - 48) as u64;
        assert(digits.take(i - start + 1).drop_last() == digits.take(i - start));
        assert(digits.take(i - start + 1).last() == c);
        let next: u128 = acc as u128 * 10 + d as u128;
        assert(next == value(digits.take(i - start + 1)));
        if next > max as u128 {
            proof {
                if all_digits(digits) {
                    lemma_value_grows(digits, i - start + 1);
                }
            }
            return None;
        }
        assert(all_digits(digits.take(i - start + 1))) by {
            assert forall|j: int| 0 <= j < i - start + 1 implies is_digit(
                #[trigger] digits.take(i - start + 1)[j],
            ) by {
                if j < i - start {
                    assert(digits.take(i - start)[j] == digits[j]);
                }
            }
        }
        acc = next as u64;
        i = i + 1;
    }
    assert(digits.take(i - start) == digits);
    Some(acc)
}

/// A number in decimal reads back as that number.
pub proof fn law_decimal_reads_back(n: nat)
    ensures
        decimal(n).len() > 0,
        all_digits(decimal(n)),
        value(decimal(n)) == n,
        forall|max: nat| n <= max ==> #[trigger] parse_number(decimal(n), max) == Some(n),
    decreases n,
{
    if n >= 10 {
        law_decimal_reads_back(n / 10);
        let front = decimal(n / 10);
        let all = decimal(n);
        assert(all.drop_last() == front);
        assert forall|i: int| 0 <= i < all.len() implies is_digit(#[trigger] all[i]) by {
            if i < front.len() {
                assert(front[i] == all[i]);
            }
        }
    } else {
        assert(decimal(n).drop_last() == Seq::<char>::empty());
        assert(value(Seq::<char>::empty()) == 0);
    }
    assert(is_digit(decimal(n)[0]));
}

} // verus!
