//! What arithmetic in binary floating point comes to, in integers.
//!
//! A number is a fraction of integers. Every operation gives, among the
//! numbers with so many significant bits, the one nearest to the true result,
//! of two that are equally near the even one. How many bits there are is said
//! by a limit, the power of two that no significand exceeds.
use crate::number::{nearest, nearest_int, WIDE};
use vstd::arithmetic::div_mod::lemma_fundamental_div_mod;
use vstd::prelude::*;

verus! {

/// The limit of double precision: 2^53.
pub const DOUBLE: u64 = 9007199254740992;

/// The limit of single precision: 2^24.
pub const SINGLE: u64 = 16777216;

// ---------------------------------------------------------------- model

/// `n / d` as a multiple of the least of `step`, twice that, and so on, that
/// leaves a significand within the limit. `unit` is `d * step`.
pub open spec fn lowered(n: nat, unit: nat, step: nat, limit: nat) -> nat
    decreases n - unit,
{
    if unit == 0 || n < 2 * unit || n < limit * unit {
        nearest(n, unit) * step
    } else {
        lowered(n, 2 * unit, 2 * step, limit)
    }
}

/// `n / d` as a multiple of the greatest of `1 / step`, half that, and so on,
/// that brings the significand up to half the limit. `num` is `n * step`.
pub open spec fn lifted(num: nat, d: nat, step: nat, limit: nat) -> (nat, nat)
    decreases limit * d - num,
{
    if num == 0 || 2 * num >= limit * d {
        (nearest(num, d), step)
    } else {
        lifted(2 * num, d, 2 * step, limit)
    }
}

/// The integer `n` as a floating-point number.
pub open spec fn whole(n: nat, limit: nat) -> nat {
    lowered(n, 1, 1, limit)
}

/// The quotient of the floating-point numbers `n` and `d`.
pub open spec fn quotient(n: nat, d: nat, limit: nat) -> (nat, nat) {
    if n == 0 {
        (0, 1)
    } else if n >= limit * d {
        (lowered(n, d, 1, limit), 1)
    } else {
        lifted(n, d, 1, limit)
    }
}

/// The quotient of the integers `n` and `d`, each taken as a floating-point
/// number first.
pub open spec fn ratio(n: nat, d: nat, limit: nat) -> (nat, nat) {
    quotient(whole(n, limit), whole(d, limit), limit)
}

/// `n / (step * den)` as a multiple of the least of `1 / den`, twice that, and
/// so on, that leaves a significand within the limit. `den` is a power of two.
pub open spec fn fitted(n: nat, step: nat, den: nat, limit: nat) -> (nat, nat)
    decreases den,
{
    if den <= 1 || den % 2 == 1 {
        (lowered(n, step, 1, limit), den)
    } else if n < limit * step {
        (nearest(n, step), den)
    } else {
        fitted(n, 2 * step, den / 2, limit)
    }
}

/// The sum of the integer `k` and a floating-point number.
pub open spec fn plus(k: nat, x: (nat, nat), limit: nat) -> (nat, nat) {
    fitted(k * x.1 + x.0, 1, x.1, limit)
}

/// The product of a floating-point number and the integer `k`.
pub open spec fn times(x: (nat, nat), k: nat, limit: nat) -> (nat, nat) {
    (whole(x.0 * k, limit), x.1)
}

// --------------------------------------------------------------- rounding

/// `n` is a power of two.
pub open spec fn is_doubled(n: nat) -> bool
    decreases n,
{
    n == 1 || n > 1 && n % 2 == 0 && is_doubled(n / 2)
}

proof fn lemma_doubled(n: nat)
    requires
        is_doubled(n),
    ensures
        is_doubled(2 * n),
        n <= 256 ==> 256nat % n == 0,
        n >= 256 ==> n % 256 == 0,
{
    reveal_with_fuel(is_doubled, 10);
    assert((2 * n) / 2 == n);
    if n <= 256 {
        assert(n == 1 || n == 2 || n == 4 || n == 8 || n == 16 || n == 32 || n == 64 || n == 128
            || n == 256);
    }
}

pub(crate) proof fn lemma_nearest_at_most(n: nat, d: nat, k: nat)
    requires
        d > 0,
        n <= k * d,
    ensures
        nearest(n, d) <= k,
{
    lemma_fundamental_div_mod(n as int, d as int);
    let q = n / d;
    let r = n % d;
    assert(q <= k && (q == k ==> r == 0)) by (nonlinear_arith)
        requires
            n == d * q + r,
            n <= k * d,
            0 <= r < d,
            d > 0,
    ;
}

proof fn lemma_nearest_at_least(n: nat, d: nat, k: nat)
    requires
        d > 0,
        n >= k * d,
    ensures
        nearest(n, d) >= k,
{
    lemma_fundamental_div_mod(n as int, d as int);
    let q = n / d;
    let r = n % d;
    assert(q >= k) by (nonlinear_arith)
        requires
            n == d * q + r,
            n >= k * d,
            0 <= r < d,
            d > 0,
    ;
}

/// The nearest multiple is no more than half a unit off.
pub(crate) proof fn lemma_nearest_off(n: nat, d: nat)
    requires
        d > 0,
    ensures
        2 * (nearest(n, d) * d) <= 2 * n + d,
        2 * n <= 2 * (nearest(n, d) * d) + d,
{
    lemma_fundamental_div_mod(n as int, d as int);
    let q = n / d;
    assert((q + 1) * d == q * d + d) by (nonlinear_arith);
    assert(d * q == q * d) by (nonlinear_arith);
}

/// `n / d`, where that is too large for its last bits to be kept.
fn lower(n: u128, d: u128, limit: u64) -> (r: u128)
    requires
        d > 0,
        n <= WIDE / 4,
        2 <= limit <= DOUBLE,
        limit * d <= WIDE / 2,
    ensures
        r == lowered(n as nat, d as nat, 1, limit as nat),
        n >= d ==> r * d <= 2 * n,
        n >= d ==> r > 0,
        d == 1 ==> r <= 2 * n,
{
    let mut unit: u128 = d;
    let mut step: u128 = 1;
    while n >= limit as u128 * unit
        invariant
            d > 0,
            step >= 1,
            unit == d * step,
            unit > 0,
            n <= WIDE / 4,
            2 <= limit <= DOUBLE,
            limit * unit <= WIDE / 2,
            step > 1 ==> n >= unit,
            lowered(n as nat, d as nat, 1, limit as nat) == lowered(
                n as nat,
                unit as nat,
                step as nat,
                limit as nat,
            ),
        decreases n - unit,
    {
        assert(limit * unit >= 2 * unit) by (nonlinear_arith)
            requires
                limit >= 2,
                unit > 0,
        ;
        assert(limit * (2 * unit) == 2 * (limit * unit)) by (nonlinear_arith);
        assert(d * (2 * step) == 2 * (d * step)) by (nonlinear_arith);
        assert(step <= d * step) by (nonlinear_arith)
            requires
                d >= 1,
                step >= 1,
        ;
        unit = unit * 2;
        step = step * 2;
    }
    assert(unit <= limit * unit) by (nonlinear_arith)
        requires
            limit >= 2,
            unit > 0,
    ;
    let m = nearest_int(n, unit);
    proof {
        lemma_nearest_at_most(n as nat, unit as nat, limit as nat);
        assert(step <= d * step) by (nonlinear_arith)
            requires
                d >= 1,
                step >= 1,
        ;
        assert(m * step <= limit * unit) by (nonlinear_arith)
            requires
                m <= limit,
                0 <= step <= unit,
        ;
        lemma_nearest_off(n as nat, unit as nat);
        assert((m * step) * d == m * unit) by (nonlinear_arith)
            requires
                unit == d * step,
        ;
        if n >= d {
            if n >= unit {
                assert(unit == 1 * unit);
                lemma_nearest_at_least(n as nat, unit as nat, 1);
            }
            assert(m * step > 0) by (nonlinear_arith)
                requires
                    m >= 1,
                    step >= 1,
            ;
        }
        if d == 1 {
            assert((m * step) * 1 == m * step);
            if n == 0 {
                assert(step == 1);
                assert(m == 0);
                assert(m * step == 0) by (nonlinear_arith)
                    requires
                        m == 0,
                ;
            }
        }
    }
    m * step
}

/// `n` as a floating-point number.
pub fn whole_of(n: u128, limit: u64) -> (r: u128)
    requires
        n <= WIDE / 4,
        2 <= limit <= DOUBLE,
    ensures
        r == whole(n as nat, limit as nat),
        r <= 2 * n,
        n > 0 ==> r > 0,
{
    lower(n, 1, limit)
}

/// The quotient of the floating-point numbers `n` and `d`.
pub fn divide(n: u128, d: u128, limit: u64) -> (r: (u128, u128))
    requires
        d > 0,
        n <= WIDE / 4,
        2 <= limit <= DOUBLE,
        limit % 2 == 0,
        limit * d <= WIDE / 2,
    ensures
        (r.0 as nat, r.1 as nat) == quotient(n as nat, d as nat, limit as nat),
        r.1 > 0,
        n < limit * d ==> r.0 <= limit,
        n > 0 && n < limit * d ==> 2 * r.0 >= limit,
        r.1 == 1 || r.1 * n < limit * d,
        r.0 * d <= 2 * n || r.0 <= limit,
        r.1 <= WIDE / 2,
        r.1 > 1 ==> n < limit * d,
        n <= d ==> r.0 <= r.1,
        is_doubled(r.1 as nat),
{
    assert(is_doubled(1));
    if n == 0 {
        assert(limit * d > 0) by (nonlinear_arith)
            requires
                limit >= 2,
                d > 0,
        ;
        return (0, 1);
    }
    if n >= limit as u128 * d {
        assert(limit * d > d) by (nonlinear_arith)
            requires
                limit >= 2,
                d > 0,
        ;
        return (lower(n, d, limit), 1);
    }
    let mut num: u128 = n;
    let mut step: u128 = 1;
    while 2 * num < limit as u128 * d
        invariant
            n > 0,
            n < limit * d,
            num >= n,
            num < limit * d,
            num == n * step,
            step >= 1,
            step <= num,
            is_doubled(step as nat),
            limit * d <= WIDE / 2,
            lifted(n as nat, d as nat, 1, limit as nat) == lifted(
                num as nat,
                d as nat,
                step as nat,
                limit as nat,
            ),
        decreases limit * d - num,
    {
        assert(n * (2 * step) == 2 * (n * step)) by (nonlinear_arith);
        proof {
            lemma_doubled(step as nat);
        }
        num = num * 2;
        step = step * 2;
    }
    assert(d <= limit * d) by (nonlinear_arith)
        requires
            limit >= 2,
            d > 0,
    ;
    let m = nearest_int(num, d);
    proof {
        lemma_nearest_at_most(num as nat, d as nat, limit as nat);
        if n <= d {
            assert(num <= step * d) by (nonlinear_arith)
                requires
                    num == n * step,
                    n <= d,
            ;
            lemma_nearest_at_most(num as nat, d as nat, step as nat);
        }
        let half: nat = (limit / 2) as nat;
        assert(2 * (half * d) == limit * d) by (nonlinear_arith)
            requires
                2 * half == limit,
        ;
        lemma_nearest_at_least(num as nat, d as nat, half);
        assert(step * n == num) by (nonlinear_arith)
            requires
                num == n * step,
        ;
    }
    (m, step)
}

/// The quotient of the integers `n` and `d`.
pub fn ratio_of(n: u64, d: u64, limit: u64) -> (r: (u128, u128))
    requires
        d > 0,
        2 <= limit <= DOUBLE,
        limit % 2 == 0,
    ensures
        (r.0 as nat, r.1 as nat) == ratio(n as nat, d as nat, limit as nat),
        0 < r.1 <= WIDE / 2,
        r.0 <= 0x4_0000_0000_0000_0000,
        r.1 > 1 ==> r.0 <= limit,
{
    let a = whole_of(n as u128, limit);
    let b = whole_of(d as u128, limit);
    assert(limit * b <= 9007199254740992 * 0x2_0000_0000_0000_0000) by (nonlinear_arith)
        requires
            0 <= limit <= 9007199254740992,
            0 <= b <= 0x2_0000_0000_0000_0000,
    ;
    let r = divide(a, b, limit);
    assert(r.0 * b <= 2 * a ==> r.0 <= 2 * a) by (nonlinear_arith)
        requires
            b >= 1,
            r.0 >= 0,
    ;
    r
}

/// The sum of the integer `k` and a quotient that is at most one.
pub fn increase(k: u128, x: (u128, u128), limit: u64) -> (r: (u128, u128))
    requires
        is_doubled(x.1 as nat),
        x.0 <= x.1 <= WIDE / 8,
        x.1 == 1 || 2 * x.0 >= limit,
        2 <= limit <= DOUBLE,
        limit % 2 == 0,
        k + 1 < limit,
        k * x.1 <= WIDE / 8,
    ensures
        (r.0 as nat, r.1 as nat) == plus(k as nat, (x.0 as nat, x.1 as nat), limit as nat),
        0 < r.1 <= x.1,
        r.0 <= limit,
        x.1 == 1 || 2 * r.0 >= limit,
        k > 0 || x.0 > 0 ==> r.0 > 0,
{
    let n: u128 = k * x.1 + x.0;
    let mut step: u128 = 1;
    let mut den: u128 = x.1;
    assert(k * x.1 + x.1 < limit * x.1) by (nonlinear_arith)
        requires
            k + 1 < limit,
            x.1 > 0,
    ;
    assert(k * x.1 >= 0) by (nonlinear_arith)
        requires
            k >= 0,
            x.1 >= 0,
    ;
    while den > 1 && den % 2 == 0 && n >= limit as u128 * step
        invariant
            n <= WIDE / 4,
            x.1 <= WIDE / 8,
            2 <= limit <= DOUBLE,
            is_doubled(den as nat),
            step * den == x.1,
            step >= 1,
            den >= 1,
            step == 1 || 2 * n >= limit * step,
            fitted(n as nat, 1, x.1 as nat, limit as nat) == fitted(
                n as nat,
                step as nat,
                den as nat,
                limit as nat,
            ),
        decreases den,
    {
        assert((2 * step) * (den as int / 2) == step * den) by (nonlinear_arith)
            requires
                den % 2 == 0,
        ;
        assert(2 * step <= step * den) by (nonlinear_arith)
            requires
                den >= 2,
                step >= 1,
        ;
        assert(limit * (2 * step) == 2 * (limit * step)) by (nonlinear_arith);
        step = step * 2;
        den = den / 2;
    }
    assert(1 <= step <= x.1 && den <= x.1) by (nonlinear_arith)
        requires
            step * den == x.1,
            step >= 1,
            den >= 1,
    ;
    assert(den == 1 ==> step == x.1) by (nonlinear_arith)
        requires
            step * den == x.1,
    ;
    assert(n < limit * step);
    let m = nearest_int(n, step);
    proof {
        lemma_nearest_at_most(n as nat, step as nat, limit as nat);
        let half: nat = (limit / 2) as nat;
        if step > 1 {
            assert(2 * (half * step) == limit * step) by (nonlinear_arith)
                requires
                    2 * half == limit,
            ;
            lemma_nearest_at_least(n as nat, step as nat, half);
        } else {
            assert(m == n);
            if x.1 == 1 {
                assert(k * x.1 == k) by (nonlinear_arith)
                    requires
                        x.1 == 1,
                ;
            }
        }
    }
    (m, den)
}

/// The product of a floating-point number and the integer `k`.
pub fn multiply(x: (u128, u128), k: u128, limit: u64) -> (r: (u128, u128))
    requires
        x.0 * k <= WIDE / 4,
        2 <= limit <= DOUBLE,
    ensures
        (r.0 as nat, r.1 as nat) == times((x.0 as nat, x.1 as nat), k as nat, limit as nat),
        r.0 <= 2 * (x.0 * k),
        r.1 == x.1,
{
    (whole_of(x.0 * k, limit), x.1)
}

/// Whether a quotient is below the constant `num / den`.
pub fn is_below(x: (u128, u128), num: u64, den: u64) -> (r: bool)
    requires
        0 < x.1 <= WIDE / 2,
        x.0 <= 0x8_0000_0000_0000_0000,
        x.1 > 1 ==> x.0 <= DOUBLE,
        0x4000_0000_0000 <= num <= DOUBLE,
        den <= 0x100_0000_0000_0000,
    ensures
        r == (x.0 * den < num * x.1),
{
    assert(x.0 * den <= 0x8_0000_0000_0000_0000 * 0x100_0000_0000_0000) by (nonlinear_arith)
        requires
            0 <= x.0 <= 0x8_0000_0000_0000_0000,
            0 <= den <= 0x100_0000_0000_0000,
    ;
    if x.1 >= 0x1_0000_0000_0000_0000 {
        assert(x.0 * den < num * x.1) by (nonlinear_arith)
            requires
                0 <= x.0 <= 9007199254740992,
                0 <= den <= 0x100_0000_0000_0000,
                num >= 0x4000_0000_0000,
                x.1 >= 0x1_0000_0000_0000_0000,
        ;
        true
    } else {
        assert(num * x.1 <= 9007199254740992 * 0x1_0000_0000_0000_0000) by (nonlinear_arith)
            requires
                0 <= num <= 9007199254740992,
                0 <= x.1 < 0x1_0000_0000_0000_0000,
        ;
        x.0 * (den as u128) < (num as u128) * x.1
    }
}

/// Whether a quotient is above the constant `num / den`.
pub fn is_above(x: (u128, u128), num: u64, den: u64) -> (r: bool)
    requires
        0 < x.1 <= WIDE / 2,
        x.0 <= 0x8_0000_0000_0000_0000,
        x.1 > 1 ==> x.0 <= DOUBLE,
        0x4000_0000_0000 <= num <= DOUBLE,
        den <= 0x100_0000_0000_0000,
    ensures
        r == (x.0 * den > num * x.1),
{
    assert(x.0 * den <= 0x8_0000_0000_0000_0000 * 0x100_0000_0000_0000) by (nonlinear_arith)
        requires
            0 <= x.0 <= 0x8_0000_0000_0000_0000,
            0 <= den <= 0x100_0000_0000_0000,
    ;
    if x.1 >= 0x1_0000_0000_0000_0000 {
        assert(x.0 * den < num * x.1) by (nonlinear_arith)
            requires
                0 <= x.0 <= 9007199254740992,
                0 <= den <= 0x100_0000_0000_0000,
                num >= 0x4000_0000_0000,
                x.1 >= 0x1_0000_0000_0000_0000,
        ;
        false
    } else {
        assert(num * x.1 <= 9007199254740992 * 0x1_0000_0000_0000_0000) by (nonlinear_arith)
            requires
                0 <= num <= 9007199254740992,
                0 <= x.1 < 0x1_0000_0000_0000_0000,
        ;
        x.0 * (den as u128) > (num as u128) * x.1
    }
}

// ------------------------------------------------------------------- order

proof fn lemma_nearest_order(a: nat, b: nat, d: nat)
    requires
        d > 0,
        a <= b,
    ensures
        nearest(a, d) <= nearest(b, d),
{
    lemma_fundamental_div_mod(a as int, d as int);
    lemma_fundamental_div_mod(b as int, d as int);
    let p = a / d;
    let q = b / d;
    assert(p <= q && (p == q ==> a % d <= b % d)) by (nonlinear_arith)
        requires
            a == d * p + a % d,
            b == d * q + b % d,
            a <= b,
            d > 0,
            0 <= a % d < d,
            0 <= b % d < d,
    ;
}

/// A number that reaches the limit for a unit does so when it is lowered.
proof fn lemma_lowered_at_least(n: nat, unit: nat, limit: nat)
    requires
        unit > 0,
        limit >= 2,
        limit % 2 == 0,
        2 * n >= limit * unit,
    ensures
        2 * lowered(n, unit, unit, limit) >= limit * unit,
    decreases n - unit,
{
    let half: nat = limit / 2;
    assert(2 * (half * unit) == limit * unit) by (nonlinear_arith)
        requires
            2 * half == limit,
    ;
    assert(limit * unit >= 2 * unit) by (nonlinear_arith)
        requires
            limit >= 2,
    ;
    if n < limit * unit {
        lemma_nearest_at_least(n, unit, half);
        let m = nearest(n, unit);
        assert(m * unit >= half * unit) by (nonlinear_arith)
            requires
                m >= half,
                unit > 0,
        ;
    } else {
        assert(limit * (2 * unit) == 2 * (limit * unit)) by (nonlinear_arith);
        lemma_lowered_at_least(n, 2 * unit, limit);
    }
}

proof fn lemma_lowered_order(a: nat, b: nat, unit: nat, limit: nat)
    requires
        unit > 0,
        limit >= 2,
        limit % 2 == 0,
        a <= b,
    ensures
        lowered(a, unit, unit, limit) <= lowered(b, unit, unit, limit),
    decreases b - unit,
{
    assert(limit * unit >= 2 * unit) by (nonlinear_arith)
        requires
            limit >= 2,
    ;
    if a < limit * unit {
        let m = nearest(a, unit);
        if b < limit * unit {
            let k = nearest(b, unit);
            lemma_nearest_order(a, b, unit);
            assert(m * unit <= k * unit) by (nonlinear_arith)
                requires
                    m <= k,
            ;
        } else {
            lemma_nearest_at_most(a, unit, limit);
            assert(m * unit <= limit * unit) by (nonlinear_arith)
                requires
                    m <= limit,
            ;
            assert(limit * (2 * unit) == 2 * (limit * unit)) by (nonlinear_arith);
            lemma_lowered_at_least(b, 2 * unit, limit);
        }
    } else {
        lemma_lowered_order(a, b, 2 * unit, limit);
    }
}

proof fn lemma_lowered_at_most(n: nat, unit: nat, limit: nat, k: nat)
    requires
        is_doubled(unit),
        unit <= 256,
        limit >= 2,
        n < 128 * limit,
        n <= 256 * k,
    ensures
        lowered(n, unit, unit, limit) <= 256 * k,
    decreases n - unit,
{
    lemma_doubled(unit);
    assert(limit * unit >= 2 * unit) by (nonlinear_arith)
        requires
            limit >= 2,
    ;
    if n < limit * unit {
        let parts: nat = 256nat / unit;
        lemma_fundamental_div_mod(256, unit as int);
        let m = nearest(n, unit);
        assert(256 * k == (parts * k) * unit) by (nonlinear_arith)
            requires
                256 == unit * parts,
        ;
        lemma_nearest_at_most(n, unit, parts * k);
        assert(m * unit <= (parts * k) * unit) by (nonlinear_arith)
            requires
                m <= parts * k,
        ;
    } else {
        assert(unit < 128) by (nonlinear_arith)
            requires
                limit * unit < 128 * limit,
                limit > 0,
        ;
        lemma_lowered_at_most(n, 2 * unit, limit, k);
    }
}

/// A part is at most the whole, also as a quotient.
proof fn lemma_lifted_at_most(num: nat, d: nat, step: nat, limit: nat)
    requires
        d > 0,
        limit >= 2,
        limit % 2 == 0,
        0 < num <= step * d,
        num < limit * d,
        is_doubled(step),
    ensures
        ({
            let q = lifted(num, d, step, limit);
            q.0 <= q.1 && q.0 <= limit && 2 * q.0 >= limit && is_doubled(q.1)
        }),
    decreases limit * d - num,
{
    if 2 * num >= limit * d {
        lemma_nearest_at_most(num, d, step);
        lemma_nearest_at_most(num, d, limit);
        let half: nat = limit / 2;
        assert(2 * (half * d) == limit * d) by (nonlinear_arith)
            requires
                2 * half == limit,
        ;
        lemma_nearest_at_least(num, d, half);
    } else {
        lemma_doubled(step);
        assert((2 * step) * d == 2 * (step * d)) by (nonlinear_arith);
        lemma_lifted_at_most(2 * num, d, 2 * step, limit);
    }
}

/// A part of a whole is at most a hundred percent of it.
pub(crate) proof fn lemma_at_most_all(part: nat, all: nat)
    requires
        part <= all,
        all > 0,
    ensures
        ({
            let q = times(ratio(part, all, SINGLE as nat), 100, SINGLE as nat);
            q.0 <= 100 * q.1
        }),
{
    let limit: nat = SINGLE as nat;
    let a = whole(part, limit);
    let b = whole(all, limit);
    lemma_lowered_order(part, all, 1, limit);
    lemma_lowered_order(1, all, 1, limit);
    assert(whole(1, limit) == 1);
    let q = ratio(part, all, limit);
    if a == 0 {
        assert(whole(0, limit) == 0);
    } else {
        assert(is_doubled(1));
        lemma_lifted_at_most(a, b, 1, limit);
        lemma_doubled(q.1);
        let k: nat = 100 * (q.1 / 256);
        lemma_lowered_at_most(q.0 * 100, 1, limit, k);
    }
}

// --------------------------------------------------------------- precision

/// What has few enough digits is kept as it is.
pub(crate) proof fn lemma_whole_exact(n: nat, limit: nat)
    requires
        n < limit,
    ensures
        whole(n, limit) == n,
{
    assert(limit * 1 == limit);
    assert(n / 1 == n && n % 1 == 0);
    assert(nearest(n, 1) * 1 == n);
}

/// A quotient is off by half a unit of its last place at most.
proof fn lemma_lifted_near(num: nat, d: nat, step: nat, limit: nat)
    requires
        d > 0,
        limit >= 2,
        limit % 2 == 0,
        0 < num < limit * d,
        is_doubled(step),
        num % step == 0,
    ensures
        ({
            let q = lifted(num, d, step, limit);
            let n = num / step;
            &&& is_doubled(q.1)
            &&& q.0 == nearest(n * q.1, d)
            &&& n * q.1 < limit * d
            &&& 2 * (n * q.1) >= limit * d
        }),
    decreases limit * d - num,
{
    lemma_fundamental_div_mod(num as int, step as int);
    let n = num / step;
    assert(step * n == n * step) by (nonlinear_arith);
    if 2 * num < limit * d {
        lemma_doubled(step);
        assert(2 * num == (2 * step) * n) by (nonlinear_arith)
            requires
                num == step * n,
        ;
        vstd::arithmetic::div_mod::lemma_mod_multiples_basic(n as int, (2 * step) as int);
        vstd::arithmetic::div_mod::lemma_div_multiples_vanish(n as int, (2 * step) as int);
        assert(n * (2 * step) == (2 * step) * n) by (nonlinear_arith);
        lemma_lifted_near(2 * num, d, 2 * step, limit);
    }
}

pub(crate) proof fn lemma_quotient_near(n: nat, d: nat, limit: nat)
    requires
        limit >= 2,
        limit % 2 == 0,
        0 < n < limit * d,
    ensures
        ({
            let q = quotient(n, d, limit);
            &&& is_doubled(q.1)
            &&& q.0 == nearest(n * q.1, d)
            &&& n * q.1 < limit * d
            &&& 2 * (n * q.1) >= limit * d
        }),
{
    assert(is_doubled(1));
    assert(n / 1 == n && n % 1 == 0);
    assert(d > 0) by (nonlinear_arith)
        requires
            0 < limit * d,
    ;
    lemma_lifted_near(n, d, 1, limit);
}

/// Of two powers of two the one that is less than twice the other is at most
/// the other.
proof fn lemma_doubled_order(a: nat, b: nat)
    requires
        is_doubled(a),
        is_doubled(b),
        a < 2 * b,
    ensures
        a <= b,
    decreases b,
{
    if a > 1 && b > 1 {
        lemma_doubled_order(a / 2, b / 2);
    }
}

proof fn lemma_large_doubled()
    ensures
        is_doubled(0x80_0000_0000_0000),
        is_doubled(0x100_0000_0000_0000),
        is_doubled(0x200_0000_0000_0000),
{
    reveal_with_fuel(is_doubled, 60);
}

/// Double precision tells what is less than a twentieth from what is not.
pub(crate) proof fn lemma_below_a_twentieth(n: nat, d: nat)
    requires
        n < DOUBLE,
        0 < d < DOUBLE,
    ensures
        ({
            let q = quotient(n, d, DOUBLE as nat);
            let below = q.0 * 0x100_0000_0000_0000 < 3602879701896397 * q.1;
            &&& below ==> 20 * n < d
            &&& 20 * n < d && d <= 0x1_0000_0000_0000 ==> below
        }),
{
    let limit: nat = DOUBLE as nat;
    let q = quotient(n, d, limit);
    let s = q.1;
    if n > 0 {
        assert(n < limit * d) by (nonlinear_arith)
            requires
                n < limit,
                d >= 1,
        ;
        lemma_quotient_near(n, d, limit);
        lemma_large_doubled();
        let top: nat = 0x200_0000_0000_0000;
        let num = n * s;
        lemma_nearest_off(num, d);
        if 20 * n >= d {
            assert(s < 2 * top) by (nonlinear_arith)
                requires
                    n * s < 9007199254740992 * d,
                    20 * n >= d,
                    d > 0,
                    top == 0x200_0000_0000_0000,
            ;
            lemma_doubled_order(s, top);
            if s == top {
                assert(num * 5 >= 36028797018963968 * d) by (nonlinear_arith)
                    requires
                        num == n * 0x200_0000_0000_0000,
                        20 * n >= d,
                ;
                assert(q.0 >= 7205759403792794) by (nonlinear_arith)
                    requires
                        2 * num <= 2 * (q.0 * d) + d,
                        num * 5 >= 36028797018963968 * d,
                        d > 0,
                ;
            } else {
                assert(s <= 0x100_0000_0000_0000) by {
                    lemma_doubled_order(s, 0x100_0000_0000_0000);
                }
                lemma_nearest_at_least(num, d, 4503599627370496);
            }
        } else if d <= 0x1_0000_0000_0000 {
            assert(s > 0x100_0000_0000_0000) by (nonlinear_arith)
                requires
                    2 * (n * s) >= 9007199254740992 * d,
                    20 * n < d,
                    d > 0,
            ;
            if s < top {
                lemma_doubled_order(s, 0x100_0000_0000_0000);
            }
            if s == top {
                assert(num * 5 + 0x80_0000_0000_0000 <= 36028797018963968 * d)
                    by (nonlinear_arith)
                    requires
                        num == n * 0x200_0000_0000_0000,
                        20 * n + 1 <= d,
                ;
                lemma_nearest_at_most(num, d, 7205759403792793);
            } else {
                lemma_nearest_at_most(num, d, limit);
                assert(s >= 2 * top) by {
                    if s < 2 * top {
                        lemma_doubled_order(s, top);
                    }
                }
            }
        }
    }
}

// ------------------------------------------------------------------ errors

/// `a` is `b` up to `e` parts in `h`.
pub(crate) open spec fn near(a: int, b: int, e: int, h: int) -> bool {
    (a - b) * h <= e * b && (b - a) * h <= e * b
}

pub(crate) proof fn lemma_near_trans(a: int, b: int, c: int, e: int, f: int, h: int)
    requires
        near(a, b, e, h),
        near(b, c, f, h),
        0 <= e <= 64,
        0 <= f <= 64,
        0 <= c,
        h >= 4096,
    ensures
        near(a, c, e + f + 1, h),
{
    let x = (b - c) * h;
    assert(e * x <= e * (f * c)) by (nonlinear_arith)
        requires
            x <= f * c,
            e >= 0,
    ;
    assert(e * (f * c) <= h * c) by (nonlinear_arith)
        requires
            0 <= e <= 64,
            0 <= f <= 64,
            0 <= c,
            h >= 4096,
    ;
    assert((e * b - e * c) * h == e * x) by (nonlinear_arith)
        requires
            x == (b - c) * h,
    ;
    assert(e * b - e * c <= c) by (nonlinear_arith)
        requires
            (e * b - e * c) * h <= h * c,
            h > 0,
    ;
    assert((a - c) * h == (a - b) * h + (b - c) * h) by (nonlinear_arith);
    assert((c - a) * h == (b - a) * h + (c - b) * h) by (nonlinear_arith);
    assert((e + f + 1) * c == e * c + f * c + c) by (nonlinear_arith);
}

pub(crate) proof fn lemma_near_scale(a: int, b: int, e: int, h: int, k: int)
    requires
        near(a, b, e, h),
        k >= 0,
    ensures
        near(a * k, b * k, e, h),
{
    assert((a * k - b * k) * h == ((a - b) * h) * k) by (nonlinear_arith);
    assert((b * k - a * k) * h == ((b - a) * h) * k) by (nonlinear_arith);
    assert(e * (b * k) == (e * b) * k) by (nonlinear_arith);
    assert(((a - b) * h) * k <= (e * b) * k && ((b - a) * h) * k <= (e * b) * k)
        by (nonlinear_arith)
        requires
            (a - b) * h <= e * b,
            (b - a) * h <= e * b,
            k >= 0,
    ;
}

pub(crate) proof fn lemma_near_cancel(a: int, b: int, e: int, h: int, k: int)
    requires
        near(a * k, b * k, e, h),
        k > 0,
    ensures
        near(a, b, e, h),
{
    assert((a * k - b * k) * h == ((a - b) * h) * k) by (nonlinear_arith);
    assert((b * k - a * k) * h == ((b - a) * h) * k) by (nonlinear_arith);
    assert(e * (b * k) == (e * b) * k) by (nonlinear_arith);
    assert((a - b) * h <= e * b && (b - a) * h <= e * b) by (nonlinear_arith)
        requires
            ((a - b) * h) * k <= (e * b) * k,
            ((b - a) * h) * k <= (e * b) * k,
            k > 0,
    ;
}

proof fn lemma_lowered_near(n: nat, unit: nat, half: nat)
    requires
        unit > 0,
        half >= 1,
        unit == 1 || n >= half * unit,
    ensures
        near(lowered(n, unit, unit, 2 * half) as int, n as int, 1, half as int),
    decreases n - unit,
{
    assert((2 * half) * unit == 2 * (half * unit)) by (nonlinear_arith);
    assert(half * unit >= unit) by (nonlinear_arith)
        requires
            half >= 1,
    ;
    if n < 2 * (half * unit) {
        lemma_nearest_off(n, unit);
        let v = nearest(n, unit) * unit;
        if unit == 1 {
            assert(n / 1 == n && n % 1 == 0);
            assert(v == n);
            assert((v - n) * half == 0 && (n - v) * half == 0) by (nonlinear_arith)
                requires
                    v == n,
            ;
        } else {
            assert((v - n) * half <= n && (n - v) * half <= n) by (nonlinear_arith)
                requires
                    2 * v <= 2 * n + unit,
                    2 * n <= 2 * v + unit,
                    n >= half * unit,
                    half >= 1,
            ;
        }
    } else {
        assert(half * (2 * unit) == 2 * (half * unit)) by (nonlinear_arith);
        lemma_lowered_near(n, 2 * unit, half);
    }
}

/// A number is kept up to half a unit of its last place.
pub(crate) proof fn lemma_whole_near(n: nat, half: nat)
    requires
        half >= 1,
    ensures
        near(whole(n, 2 * half) as int, n as int, 1, half as int),
{
    lemma_lowered_near(n, 1, half);
}

/// A quotient is right up to half a unit of its last place.
pub(crate) proof fn lemma_quotient_error(n: nat, d: nat, half: nat)
    requires
        d > 0,
        half >= 1,
        n < (2 * half) * d,
    ensures
        ({
            let q = quotient(n, d, 2 * half);
            near((q.0 * d) as int, (n * q.1) as int, 1, half as int) && q.1 > 0
        }),
{
    let q = quotient(n, d, 2 * half);
    if n > 0 {
        lemma_quotient_near(n, d, 2 * half);
        let num = n * q.1;
        lemma_nearest_off(num, d);
        let v = q.0 * d;
        assert((2 * half) * d == 2 * (half * d)) by (nonlinear_arith);
        assert((v - num) * half <= num && (num - v) * half <= num) by (nonlinear_arith)
            requires
                2 * v <= 2 * num + d,
                2 * num <= 2 * v + d,
                num >= half * d,
                half >= 1,
        ;
    } else {
        assert(0 * d == 0);
    }
}

proof fn lemma_lowered_quotient(n: nat, d: nat, step: nat, half: nat)
    requires
        d > 0,
        step > 0,
        half >= 1,
        n >= half * (d * step),
    ensures
        near((lowered(n, d * step, step, 2 * half) * d) as int, n as int, 1, half as int),
    decreases n - d * step,
{
    let unit = d * step;
    assert(unit > 0) by (nonlinear_arith)
        requires
            d > 0,
            step > 0,
            unit == d * step,
    ;
    assert((2 * half) * unit == 2 * (half * unit)) by (nonlinear_arith);
    assert(half * unit >= unit) by (nonlinear_arith)
        requires
            half >= 1,
    ;
    if n < 2 * (half * unit) {
        lemma_nearest_off(n, unit);
        let m = nearest(n, unit);
        let v = m * unit;
        assert((m * step) * d == v) by (nonlinear_arith)
            requires
                v == m * unit,
                unit == d * step,
        ;
        assert((v - n) * half <= n && (n - v) * half <= n) by (nonlinear_arith)
            requires
                2 * v <= 2 * n + unit,
                2 * n <= 2 * v + unit,
                n >= half * unit,
                half >= 1,
        ;
    } else {
        assert(d * (2 * step) == 2 * unit) by (nonlinear_arith)
            requires
                unit == d * step,
        ;
        assert(half * (2 * unit) == 2 * (half * unit)) by (nonlinear_arith);
        lemma_lowered_quotient(n, d, 2 * step, half);
    }
}

/// A quotient of any two numbers is right up to half a unit of its last place.
pub(crate) proof fn lemma_division_error(n: nat, d: nat, half: nat)
    requires
        d > 0,
        half >= 1,
    ensures
        ({
            let q = quotient(n, d, 2 * half);
            near((q.0 * d) as int, (n * q.1) as int, 1, half as int) && q.1 > 0
        }),
{
    if n < (2 * half) * d {
        lemma_quotient_error(n, d, half);
    } else {
        assert((2 * half) * d == 2 * (half * d)) by (nonlinear_arith);
        assert(half * d >= 0) by (nonlinear_arith);
        assert(d * 1 == d);
        assert(half * (d * 1) <= n);
        lemma_lowered_quotient(n, d, 1, half);
        assert(n > 0) by (nonlinear_arith)
            requires
                n >= (2 * half) * d,
                half >= 1,
                d > 0,
        ;
        assert(n * 1 == n);
    }
}

proof fn lemma_fitted(n: nat, step: nat, den: nat, half: nat)
    requires
        step > 0,
        half >= 1,
        is_doubled(den),
        n < (2 * half) * (step * den),
        step == 1 || n >= half * step,
    ensures
        ({
            let t = fitted(n, step, den, 2 * half);
            &&& t.1 > 0
            &&& near((t.0 * (step * den)) as int, (n * t.1) as int, 1, half as int)
        }),
    decreases den,
{
    let limit: nat = 2 * half;
    assert(limit * step == 2 * (half * step)) by (nonlinear_arith)
        requires
            limit == 2 * half,
    ;
    assert(step * 1 == step);
    if den == 1 || n < limit * step {
        let m = nearest(n, step);
        lemma_nearest_off(n, step);
        assert(half * step >= step) by (nonlinear_arith)
            requires
                half >= 1,
        ;
        assert(fitted(n, step, den, limit) == (m, den));
        let v = m * step;
        if step == 1 {
            assert(n / 1 == n && n % 1 == 0);
            assert(v == n);
        } else {
            assert((v - n) * half <= n && (n - v) * half <= n) by (nonlinear_arith)
                requires
                    2 * v <= 2 * n + step,
                    2 * n <= 2 * v + step,
                    n >= half * step,
                    half >= 1,
            ;
        }
        lemma_near_scale(v as int, n as int, 1, half as int, den as int);
        assert(v * den == m * (step * den)) by (nonlinear_arith)
            requires
                v == m * step,
        ;
    } else {
        assert((2 * step) * (den / 2) == step * den) by (nonlinear_arith)
            requires
                den % 2 == 0,
        ;
        assert(half * (2 * step) == 2 * (half * step)) by (nonlinear_arith);
        lemma_fitted(n, 2 * step, den / 2, half);
    }
}

/// A sum is right up to half a unit of its last place.
pub(crate) proof fn lemma_plus_error(k: nat, x: (nat, nat), half: nat)
    requires
        half >= 1,
        is_doubled(x.1),
        k * x.1 + x.0 < (2 * half) * x.1,
    ensures
        ({
            let t = plus(k, x, 2 * half);
            t.1 > 0 && near((t.0 * x.1) as int, ((k * x.1 + x.0) * t.1) as int, 1, half as int)
        }),
{
    assert(1 * x.1 == x.1);
    lemma_fitted(k * x.1 + x.0, 1, x.1, half);
}

pub(crate) proof fn lemma_near_sym(a: int, b: int, e: int, h: int)
    requires
        near(a, b, e, h),
        0 <= e,
        2 * e <= h,
        0 <= b,
    ensures
        near(b, a, 2 * e, h),
{
    assert(e * b <= 2 * e * a) by (nonlinear_arith)
        requires
            (b - a) * h <= e * b,
            2 * e <= h,
            0 <= e,
            0 <= b,
    ;
}

/// A share in percent is right up to one unit and a part in 2^20.
pub(crate) proof fn lemma_percent(part: nat, all: nat, unit: nat)
    requires
        all > 0,
    ensures
        ({
            let q = times(ratio(part, all, SINGLE as nat), 100, SINGLE as nat);
            let bits = q.0 * unit / q.1;
            let off = bits * all - 100 * part * unit;
            &&& q.1 > 0
            &&& off * 0x10_0000 <= all * 0x10_0000 + 100 * part * unit
            &&& -off * 0x10_0000 <= all * 0x10_0000 + 100 * part * unit
        }),
{
    let half: nat = 0x80_0000;
    let h = half as int;
    let limit = SINGLE as nat;
    let a = whole(part, limit);
    let b = whole(all, limit);
    lemma_whole_near(part, half);
    lemma_whole_near(all, half);
    assert(b > 0) by {
        lemma_lowered_order(1, all, 1, limit);
        assert(whole(1, limit) == 1);
    }
    let q = quotient(a, b, limit);
    lemma_division_error(a, b, half);
    let p = whole(q.0 * 100, limit);
    lemma_whole_near(q.0 * 100, half);
    let k = q.1 as int;
    let x = (100 * part) * k;
    lemma_near_scale(p as int, (q.0 * 100) as int, 1, h, b as int);
    lemma_near_scale((q.0 * b) as int, (a * q.1) as int, 1, h, 100);
    lemma_near_scale(a as int, part as int, 1, h, 100 * k);
    assert((q.0 * 100) * b == (q.0 * b) * 100) by (nonlinear_arith);
    assert((a * q.1) * 100 == a * (100 * k)) by (nonlinear_arith)
        requires
            k == q.1,
    ;
    assert(part * (100 * k) == x) by (nonlinear_arith)
        requires
            x == (100 * part) * k,
    ;
    assert(x >= 0) by (nonlinear_arith)
        requires
            x == (100 * part) * k,
            k >= 0,
            part >= 0,
    ;
    assert((a * q.1) * 100 >= 0) by (nonlinear_arith);
    lemma_near_trans(
        (p * b) as int,
        ((q.0 * 100) * b) as int,
        ((a * q.1) * 100) as int,
        1,
        1,
        h,
    );
    lemma_near_trans((p * b) as int, ((a * q.1) * 100) as int, x, 3, 1, h);
    lemma_near_scale(b as int, all as int, 1, h, p as int);
    assert(b * p == p * b && all * p == p * all) by (nonlinear_arith);
    assert(p * all >= 0) by (nonlinear_arith);
    lemma_near_sym((p * b) as int, (p * all) as int, 1, h);
    lemma_near_trans((p * all) as int, (p * b) as int, x, 2, 5, h);
    let bits = p * unit / q.1;
    lemma_fundamental_div_mod((p * unit) as int, k);
    let rest = (p * unit) as int % k;
    let y = (p * all) as int;
    let off = bits * all - 100 * part * unit;
    assert(off * k == (y - x) * unit - rest * all) by (nonlinear_arith)
        requires
            off == bits * all - 100 * part * unit,
            p * unit == k * bits + rest,
            y == p * all,
            x == (100 * part) * k,
    ;
    let w = x * unit;
    assert((y - x) * unit * h <= 8 * w && (x - y) * unit * h <= 8 * w) by (nonlinear_arith)
        requires
            (y - x) * h <= 8 * x,
            (x - y) * h <= 8 * x,
            w == x * unit,
            unit >= 0,
    ;
    assert(0 <= rest * all <= k * all) by (nonlinear_arith)
        requires
            0 <= rest < k,
            all >= 0,
    ;
    assert(w == (100 * part * unit) * k) by (nonlinear_arith)
        requires
            w == x * unit,
            x == (100 * part) * k,
    ;
    let z = off * k;
    assert(z * 0x10_0000 <= (all * k) * 0x10_0000 + w && -z * 0x10_0000 <= (all * k) * 0x10_0000
        + w) by (nonlinear_arith)
        requires
            z == (y - x) * unit - rest * all,
            (y - x) * unit * 0x80_0000 <= 8 * w,
            (x - y) * unit * 0x80_0000 <= 8 * w,
            0 <= rest * all <= k * all,
    ;
    let goal = 100 * part * unit;
    assert(off * 0x10_0000 <= all * 0x10_0000 + goal && -off * 0x10_0000 <= all * 0x10_0000 + goal)
        by (nonlinear_arith)
        requires
            z == off * k,
            w == goal * k,
            k > 0,
            z * 0x10_0000 <= (all * k) * 0x10_0000 + w,
            -z * 0x10_0000 <= (all * k) * 0x10_0000 + w,
    ;
}

/// A quotient in double precision, of a number with not too many digits, is
/// right up to a few parts in 2^52.
pub(crate) proof fn lemma_ratio_near(n: nat, d: nat)
    requires
        0 < d < DOUBLE,
    ensures
        ({
            let q = ratio(n, d, DOUBLE as nat);
            q.1 > 0 && near((q.0 * d) as int, (n * q.1) as int, 3, 0x10_0000_0000_0000)
        }),
{
    let half: nat = 0x10_0000_0000_0000;
    let a = whole(n, DOUBLE as nat);
    lemma_whole_near(n, half);
    lemma_whole_exact(d, DOUBLE as nat);
    let q = quotient(a, d, DOUBLE as nat);
    lemma_division_error(a, d, half);
    lemma_near_scale(a as int, n as int, 1, half as int, q.1 as int);
    assert(n * q.1 >= 0) by (nonlinear_arith);
    lemma_near_trans((q.0 * d) as int, (a * q.1) as int, (n * q.1) as int, 1, 1, half as int);
}

/// What is shown of a quotient, in parts of `parts`, is off by half such a
/// part and a few bytes at most.
pub(crate) proof fn lemma_shown_size(n: nat, d: nat, parts: nat)
    requires
        0 < d < DOUBLE,
        n <= DOUBLE,
        parts <= 10,
    ensures
        ({
            let q = ratio(n, d, DOUBLE as nat);
            let k = nearest(q.0 * parts, q.1);
            &&& 2 * (k * d) <= 2 * (parts * n) + d + 120
            &&& 2 * (parts * n) <= 2 * (k * d) + d + 120
        }),
{
    let q = ratio(n, d, DOUBLE as nat);
    lemma_ratio_near(n, d);
    let k = nearest(q.0 * parts, q.1);
    lemma_nearest_off(q.0 * parts, q.1);
    let s = q.1 as int;
    let x = (q.0 * d) as int;
    let y = n * s;
    assert(x * 1 - y <= 6 * s && y - x <= 6 * s) by (nonlinear_arith)
        requires
            (x - y) * 0x10_0000_0000_0000 <= 3 * y,
            (y - x) * 0x10_0000_0000_0000 <= 3 * y,
            y == n * s,
            n <= 9007199254740992,
            s > 0,
    ;
    let v = k * d;
    let u = parts * n;
    assert(2 * (v * s) <= 2 * (x * parts) + d * s && 2 * (x * parts) <= 2 * (v * s) + d * s)
        by (nonlinear_arith)
        requires
            2 * (k * s) <= 2 * (q.0 * parts) + s,
            2 * (q.0 * parts) <= 2 * (k * s) + s,
            v == k * d,
            x == q.0 * d,
            d > 0,
    ;
    assert(x * parts - y * parts <= 60 * s && y * parts - x * parts <= 60 * s) by (nonlinear_arith)
        requires
            x - y <= 6 * s,
            y - x <= 6 * s,
            0 <= parts <= 10,
            s > 0,
    ;
    assert(y * parts == u * s) by (nonlinear_arith)
        requires
            y == n * s,
            u == parts * n,
    ;
    assert(2 * v <= 2 * u + d + 120 && 2 * u <= 2 * v + d + 120) by (nonlinear_arith)
        requires
            2 * (v * s) <= 2 * (u * s) + d * s + 120 * s,
            2 * (u * s) <= 2 * (v * s) + d * s + 120 * s,
            s > 0,
    ;
}

/// Double precision tells what is more than a tenth from what is not.
pub(crate) proof fn lemma_above_a_tenth(n: nat, d: nat)
    requires
        n < DOUBLE,
        0 < d < DOUBLE,
    ensures
        ({
            let q = quotient(n, d, DOUBLE as nat);
            let above = q.0 * 0x80_0000_0000_0000 > 3602879701896397 * q.1;
            &&& above ==> 10 * n > d
            &&& 10 * n > d && d <= 0x1_0000_0000_0000 ==> above
        }),
{
    let limit: nat = DOUBLE as nat;
    let q = quotient(n, d, limit);
    let s = q.1;
    if n > 0 {
        assert(n < limit * d) by (nonlinear_arith)
            requires
                n < limit,
                d >= 1,
        ;
        lemma_quotient_near(n, d, limit);
        lemma_large_doubled();
        let top: nat = 0x100_0000_0000_0000;
        let num = n * s;
        lemma_nearest_off(num, d);
        if 10 * n <= d {
            assert(s > 0x80_0000_0000_0000) by (nonlinear_arith)
                requires
                    2 * (n * s) >= 9007199254740992 * d,
                    10 * n <= d,
                    d > 0,
            ;
            if s < top {
                lemma_doubled_order(s, 0x80_0000_0000_0000);
            }
            if s == top {
                assert(num * 5 <= 36028797018963968 * d) by (nonlinear_arith)
                    requires
                        num == n * 0x100_0000_0000_0000,
                        10 * n <= d,
                ;
                lemma_nearest_at_most(num, d, 7205759403792794);
            } else {
                lemma_nearest_at_most(num, d, limit);
                assert(s >= 2 * top) by {
                    if s < 2 * top {
                        lemma_doubled_order(s, top);
                    }
                }
            }
        } else if d <= 0x1_0000_0000_0000 {
            assert(s < 2 * top) by (nonlinear_arith)
                requires
                    n * s < 9007199254740992 * d,
                    10 * n > d,
                    d > 0,
                    top == 0x100_0000_0000_0000,
            ;
            lemma_doubled_order(s, top);
            if s == top {
                assert(num * 5 >= 36028797018963968 * d + 0x80_0000_0000_0000)
                    by (nonlinear_arith)
                    requires
                        num == n * 0x100_0000_0000_0000,
                        10 * n >= d + 1,
                ;
                lemma_nearest_at_least(num, d, 7205759403792795);
            } else {
                assert(s <= 0x80_0000_0000_0000) by {
                    lemma_doubled_order(s, 0x80_0000_0000_0000);
                }
                lemma_nearest_at_least(num, d, 4503599627370496);
            }
        }
    }
}

} // verus!
