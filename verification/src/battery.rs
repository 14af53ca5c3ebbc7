//! Estimates the time to empty from the drop in charge that is observed over
//! time: a plain extrapolation of the drain rate across repeated samples.
//! Power draw is not attributed to single processes.
//!
//! Times and durations are in nanoseconds.
use crate::float::{
    divide, increase, is_doubled, lemma_division_error, lemma_near_cancel, lemma_near_scale,
    lemma_near_trans, lemma_nearest_at_most, lemma_nearest_off, lemma_plus_error,
    lemma_quotient_error, lemma_quotient_near, lemma_whole_near, multiply, near, plus, quotient,
    times, DOUBLE,
};
use crate::number::{decimal, nearest, nearest_int, push_decimal, two_digits, two_digits_text};
use crate::stamps::since;
use std::collections::VecDeque;
use vstd::prelude::*;
use vstd::string::StringExecFns;

verus! {

pub const MAX_SAMPLES: usize = 20;

pub const MIN_SAMPLES_FOR_ETA: usize = 3;

pub const NANOS_PER_SEC: u128 = 1000000000;

/// The charge observed while the battery was discharging, oldest first.
pub struct BatteryTrend {
    samples: VecDeque<(u64, u8)>,
}

impl View for BatteryTrend {
    type V = Seq<(u64, u8)>;

    closed spec fn view(&self) -> Seq<(u64, u8)> {
        self.samples@
    }
}

/// The samples once one more observation has come in. Anything but an
/// observation of a discharging battery clears them: a rate across a charge
/// would mean nothing.
pub open spec fn observed(
    samples: Seq<(u64, u8)>,
    charging: Option<bool>,
    percentage: Option<u8>,
    now: u64,
) -> Seq<(u64, u8)> {
    if charging == Some(false) && percentage is Some {
        let kept = if samples.len() == MAX_SAMPLES {
            samples.skip(1)
        } else {
            samples
        };
        kept.push((now, percentage->0))
    } else {
        Seq::empty()
    }
}

/// A duration in seconds, in double precision.
pub open spec fn seconds(nanos: nat) -> (nat, nat) {
    let part = quotient(nanos % NANOS_PER_SEC as nat, NANOS_PER_SEC as nat, DOUBLE as nat);
    plus(nanos / NANOS_PER_SEC as nat, part, DOUBLE as nat)
}

/// How long a charge of `left` percent lasts where `dropped` percent have gone
/// in so much time: worked out in seconds, in double precision, and given to
/// the nearest nanosecond.
pub open spec fn lasts(nanos: nat, dropped: nat, left: nat) -> nat {
    let t = seconds(nanos);
    let q = quotient(t.0, dropped, DOUBLE as nat);
    let all = times((q.0, q.1 * t.1), left, DOUBLE as nat);
    nearest(all.0 * NANOS_PER_SEC as nat, all.1)
}

/// The time until the charge is gone, at the rate between the first sample
/// and the last; nothing where there are too few, or the charge has not
/// dropped, or no time has passed.
pub open spec fn time_left(samples: Seq<(u64, u8)>) -> Option<nat> {
    let first = samples[0];
    let last = samples[samples.len() - 1];
    if samples.len() < MIN_SAMPLES_FOR_ETA || last.1 >= first.1 || since(last.0, first.0) == 0 {
        None
    } else {
        Some(lasts(since(last.0, first.0) as nat, (first.1 - last.1) as nat, last.1 as nat))
    }
}

impl BatteryTrend {
    pub fn new() -> (r: Self)
        ensures
            r@ == Seq::<(u64, u8)>::empty(),
    {
        BatteryTrend { samples: VecDeque::with_capacity(MAX_SAMPLES) }
    }

    /// Takes one observation in.
    pub fn record(&mut self, charging: Option<bool>, percentage: Option<u8>, now: u64)
        ensures
            final(self)@ == observed(old(self)@, charging, percentage, now),
    {
        match (charging, percentage) {
            (Some(false), Some(pct)) => {
                if self.samples.len() == MAX_SAMPLES {
                    self.samples.pop_front();
                }
                self.samples.push_back((now, pct));
            },
            _ => {
                self.samples.clear();
            },
        }
    }

    /// The time until the battery is empty, to the nearest nanosecond.
    pub fn eta(&self) -> (r: Option<u128>)
        ensures
            match r {
                Some(d) => time_left(self@) == Some(d as nat),
                None => time_left(self@) is None,
            },
    {
        let n = self.samples.len();
        if n < MIN_SAMPLES_FOR_ETA {
            return None;
        }
        let (t0, p0) = self.samples[0];
        let (t1, p1) = self.samples[n - 1];
        if p1 >= p0 {
            return None;
        }
        let elapsed: u64 = t1.saturating_sub(t0);
        if elapsed == 0 {
            return None;
        }
        Some(extrapolate(elapsed, p0 - p1, p1))
    }
}

fn extrapolate(nanos: u64, dropped: u8, left: u8) -> (r: u128)
    requires
        nanos > 0,
        dropped > 0,
    ensures
        r == lasts(nanos as nat, dropped as nat, left as nat),
{
    let whole: u128 = nanos as u128 / NANOS_PER_SEC;
    let rest: u128 = nanos as u128 % NANOS_PER_SEC;
    let part = divide(rest, NANOS_PER_SEC, DOUBLE);
    assert(part.1 <= DOUBLE * NANOS_PER_SEC) by (nonlinear_arith)
        requires
            part.1 == 1 || part.1 * rest < DOUBLE * NANOS_PER_SEC,
            part.1 == 1 || rest >= 1,
            rest >= 0,
            DOUBLE == 9007199254740992,
            NANOS_PER_SEC == 1000000000,
    ;
    assert(whole * part.1 <= 18446744073 * 9007199254740992000000000) by (nonlinear_arith)
        requires
            0 <= whole <= 18446744073,
            0 <= part.1 <= 9007199254740992000000000,
    ;
    let t = increase(whole, part, DOUBLE);
    let q = divide(t.0, dropped as u128, DOUBLE);
    assert(q.0 * dropped <= 2 * t.0 ==> q.0 <= 2 * t.0) by (nonlinear_arith)
        requires
            dropped >= 1,
            q.0 >= 0,
    ;
    if t.1 > 1 {
        assert(q.1 <= 512) by (nonlinear_arith)
            requires
                q.1 == 1 || q.1 * t.0 < 9007199254740992 * dropped,
                2 * t.0 >= 9007199254740992,
                0 <= dropped <= 255,
        ;
        assert(q.1 * t.1 <= 512 * 9007199254740992000000000) by (nonlinear_arith)
            requires
                0 <= q.1 <= 512,
                0 <= t.1 <= 9007199254740992000000000,
        ;
    } else {
        assert(q.1 * t.1 == q.1) by (nonlinear_arith)
            requires
                t.1 == 1,
        ;
    }
    assert(q.1 * t.1 > 0) by (nonlinear_arith)
        requires
            q.1 > 0,
            t.1 > 0,
    ;
    assert(q.0 * left <= 18014398509481984 * 255) by (nonlinear_arith)
        requires
            0 <= q.0 <= 18014398509481984,
            0 <= left <= 255,
    ;
    let (a, b) = multiply((q.0, q.1 * t.1), left as u128, DOUBLE);
    nearest_int(a * NANOS_PER_SEC, b)
}

/// A duration as hours and minutes, "1h42m", or as minutes alone, "45m".
pub open spec fn eta_text(nanos: nat) -> Seq<char> {
    let minutes = nanos / NANOS_PER_SEC as nat / 60;
    let h = minutes / 60;
    let m = minutes % 60;
    if h > 0 {
        decimal(h) + "h"@ + two_digits(m) + "m"@
    } else {
        decimal(m) + "m"@
    }
}

/// Formats a duration as "1h42m" or "45m".
pub fn format_eta(nanos: u128) -> (r: String)
    ensures
        r@ == eta_text(nanos as nat),
{
    let minutes: u128 = nanos / NANOS_PER_SEC / 60;
    let h: u128 = minutes / 60;
    let m: u128 = minutes % 60;
    let mut r: String = String::new();
    if h > 0 {
        push_decimal(&mut r, h);
        assert(r@ == decimal(h as nat));
        r.append("h");
        r.append(two_digits_text(m as u64).as_str());
        r.append("m");
    } else {
        push_decimal(&mut r, m);
        assert(r@ == decimal(m as nat));
        r.append("m");
    }
    r
}

/// The window never grows beyond its limit, and what falls out is the oldest.
pub proof fn law_window_is_bounded(
    samples: Seq<(u64, u8)>,
    charging: Option<bool>,
    percentage: Option<u8>,
    now: u64,
)
    requires
        samples.len() <= MAX_SAMPLES,
    ensures
        observed(samples, charging, percentage, now).len() <= MAX_SAMPLES,
        charging == Some(false) && percentage is Some ==> {
            let after = observed(samples, charging, percentage, now);
            &&& after.last() == (now, percentage->0)
            &&& after.drop_last().is_suffix_of(samples)
        },
{
    if charging == Some(false) && percentage is Some {
        let after = observed(samples, charging, percentage, now);
        if samples.len() == MAX_SAMPLES {
            assert(after.drop_last() == samples.skip(1));
        } else {
            assert(after.drop_last() == samples);
        }
    }
}

/// A charge event clears the trend, and it takes as many fresh samples as an
/// estimate needs before there is one again.
pub proof fn law_charging_resets(
    samples: Seq<(u64, u8)>,
    charging: Option<bool>,
    percentage: Option<u8>,
    now: u64,
    fresh: Seq<(Option<bool>, Option<u8>, u64)>,
)
    requires
        charging != Some(false),
        fresh.len() < MIN_SAMPLES_FOR_ETA,
    ensures
        time_left(observed_all(observed(samples, charging, percentage, now), fresh)) is None,
{
    lemma_observed_len(observed(samples, charging, percentage, now), fresh);
}

/// The samples once all of `fresh` have come in.
pub open spec fn observed_all(
    samples: Seq<(u64, u8)>,
    fresh: Seq<(Option<bool>, Option<u8>, u64)>,
) -> Seq<(u64, u8)>
    decreases fresh.len(),
{
    if fresh.len() == 0 {
        samples
    } else {
        let o = fresh.last();
        observed(observed_all(samples, fresh.drop_last()), o.0, o.1, o.2)
    }
}

proof fn lemma_observed_len(
    samples: Seq<(u64, u8)>,
    fresh: Seq<(Option<bool>, Option<u8>, u64)>,
)
    ensures
        observed_all(samples, fresh).len() <= samples.len() + fresh.len(),
    decreases fresh.len(),
{
    if fresh.len() > 0 {
        lemma_observed_len(samples, fresh.drop_last());
    }
}

/// There is an estimate exactly when there are at least three samples, the
/// newest charge is below that of the oldest, and time has passed between
/// the two; the samples between them do not matter.
pub proof fn law_estimate_needs_a_drop(samples: Seq<(u64, u8)>)
    ensures
        time_left(samples) is Some <==> {
            &&& samples.len() >= 3
            &&& samples[samples.len() - 1].1 < samples[0].1
            &&& samples[samples.len() - 1].0 > samples[0].0
        },
{
}

proof fn lemma_seconds(nanos: nat)
    requires
        0 < nanos <= u64::MAX,
    ensures
        ({
            let t = seconds(nanos);
            t.1 > 0 && near(
                (t.0 * 1000000000) as int,
                (nanos * t.1) as int,
                3,
                0x10_0000_0000_0000,
            )
        }),
{
    let half: nat = 0x10_0000_0000_0000;
    let h = half as int;
    let s = nanos / 1000000000;
    let r = nanos % 1000000000;
    let part = quotient(r, 1000000000, DOUBLE as nat);
    let m = part.0;
    let k = part.1;
    lemma_quotient_error(r, 1000000000, half);
    assert(is_doubled(k) && m <= k) by {
        if r > 0 {
            lemma_quotient_near(r, 1000000000, DOUBLE as nat);
            assert(r * k <= k * 1000000000) by (nonlinear_arith)
                requires
                    r <= 1000000000,
            ;
            lemma_nearest_at_most(r * k, 1000000000, k);
        } else {
            assert(is_doubled(1));
        }
    }
    let n = s * k + m;
    assert(n < (2 * half) * k) by (nonlinear_arith)
        requires
            n == s * k + m,
            m <= k,
            s + 1 < 2 * half,
            k > 0,
    ;
    lemma_plus_error(s, part, half);
    let t = plus(s, part, DOUBLE as nat);
    assert(n * 1000000000 - nanos * k == m * 1000000000 - r * k) by (nonlinear_arith)
        requires
            n == s * k + m,
            nanos == s * 1000000000 + r,
    ;
    assert(r * k <= nanos * k) by (nonlinear_arith)
        requires
            r <= nanos,
    ;
    assert(near((n * 1000000000) as int, (nanos * k) as int, 1, h));
    lemma_near_scale((t.0 * k) as int, (n * t.1) as int, 1, h, 1000000000);
    lemma_near_scale((n * 1000000000) as int, (nanos * k) as int, 1, h, t.1 as int);
    assert((n * t.1) * 1000000000 == (n * 1000000000) * t.1) by (nonlinear_arith);
    assert((nanos * k) * t.1 >= 0) by (nonlinear_arith);
    lemma_near_trans(
        ((t.0 * k) * 1000000000) as int,
        ((n * t.1) * 1000000000) as int,
        ((nanos * k) * t.1) as int,
        1,
        1,
        h,
    );
    assert((t.0 * k) * 1000000000 == (t.0 * 1000000000) * k) by (nonlinear_arith);
    assert((nanos * k) * t.1 == (nanos * t.1) * k) by (nonlinear_arith);
    lemma_near_cancel((t.0 * 1000000000) as int, (nanos * t.1) as int, 3, h, k as int);
}

/// The estimate is the time between the oldest sample and the newest, for
/// every percent that went in it, times the percent that are left: within a
/// nanosecond and one part in 2^49 of that.
pub proof fn law_estimate_is_proportional(samples: Seq<(u64, u8)>)
    requires
        time_left(samples) is Some,
    ensures
        ({
            let first = samples[0];
            let last = samples[samples.len() - 1];
            let elapsed = last.0 - first.0;
            let dropped = first.1 - last.1;
            let off = time_left(samples)->0 * dropped - elapsed * last.1;
            &&& off * 0x2_0000_0000_0000 <= dropped * 0x2_0000_0000_0000 + elapsed * last.1
            &&& -off * 0x2_0000_0000_0000 <= dropped * 0x2_0000_0000_0000 + elapsed * last.1
        }),
{
    let first = samples[0];
    let last = samples[samples.len() - 1];
    let nanos = (last.0 - first.0) as nat;
    let dropped = (first.1 - last.1) as nat;
    lemma_lasts(nanos, dropped, last.1 as nat);
}

proof fn lemma_lasts(nanos: nat, dropped: nat, left: nat)
    requires
        0 < nanos <= u64::MAX,
        dropped > 0,
    ensures
        ({
            let off = lasts(nanos, dropped, left) * dropped - nanos * left;
            &&& off * 0x2_0000_0000_0000 <= dropped * 0x2_0000_0000_0000 + nanos * left
            &&& -off * 0x2_0000_0000_0000 <= dropped * 0x2_0000_0000_0000 + nanos * left
        }),
{
    let half: nat = 0x10_0000_0000_0000;
    let h = half as int;
    let t = seconds(nanos);
    let q = quotient(t.0, dropped, DOUBLE as nat);
    let all = times((q.0, q.1 * t.1), left, DOUBLE as nat);
    lemma_seconds(nanos);
    lemma_division_error(t.0, dropped, half);
    lemma_whole_near(q.0 * left, half);
    let c = all.0 as int;
    let unit = (q.1 * t.1) as int;
    let value = (nanos * left) as int;
    assert(unit > 0) by (nonlinear_arith)
        requires
            q.1 > 0,
            t.1 > 0,
            unit == q.1 * t.1,
    ;
    let x = (q.0 * dropped) as int;
    let y = (t.0 * q.1) as int;
    lemma_near_scale(x, y, 1, h, 1000000000);
    lemma_near_scale((t.0 * 1000000000) as int, (nanos * t.1) as int, 3, h, q.1 as int);
    assert(y * 1000000000 == (t.0 * 1000000000) * q.1) by (nonlinear_arith)
        requires
            y == t.0 * q.1,
    ;
    assert((nanos * t.1) * q.1 == nanos * unit) by (nonlinear_arith)
        requires
            unit == q.1 * t.1,
    ;
    assert(nanos * unit >= 0) by (nonlinear_arith)
        requires
            unit > 0,
            nanos >= 0,
    ;
    lemma_near_trans(x * 1000000000, y * 1000000000, nanos * unit, 1, 3, h);
    lemma_near_scale(x * 1000000000, nanos * unit, 5, h, left as int);
    let z = (q.0 * left) as int;
    lemma_near_scale(c, z, 1, h, (dropped * 1000000000) as int);
    assert(z * (dropped * 1000000000) == (x * 1000000000) * left) by (nonlinear_arith)
        requires
            z == q.0 * left,
            x == q.0 * dropped,
    ;
    assert((nanos * unit) * left == value * unit) by (nonlinear_arith)
        requires
            value == nanos * left,
    ;
    assert(value * unit >= 0) by (nonlinear_arith)
        requires
            value >= 0,
            unit > 0,
    ;
    lemma_near_trans(
        c * (dropped * 1000000000),
        (x * 1000000000) * left,
        value * unit,
        1,
        5,
        h,
    );
    let e = lasts(nanos, dropped, left) as int;
    lemma_nearest_off((c * 1000000000) as nat, unit as nat);
    assert(2 * (e * unit) <= 2 * (c * 1000000000) + unit && 2 * (c * 1000000000) <= 2 * (e * unit)
        + unit);
    let a = e * dropped * unit;
    let b = c * (dropped * 1000000000);
    let w = dropped * unit;
    assert(2 * a <= 2 * b + w && 2 * b <= 2 * a + w) by (nonlinear_arith)
        requires
            2 * (e * unit) <= 2 * (c * 1000000000) + unit,
            2 * (c * 1000000000) <= 2 * (e * unit) + unit,
            a == e * dropped * unit,
            b == c * (dropped * 1000000000),
            w == dropped * unit,
            dropped > 0,
    ;
    let off = e * dropped - value;
    assert(off * unit == a - value * unit) by (nonlinear_arith)
        requires
            off == e * dropped - value,
            a == e * dropped * unit,
    ;
    let v = value * unit;
    assert(w >= 0) by (nonlinear_arith)
        requires
            w == dropped * unit,
            unit > 0,
            dropped > 0,
    ;
    assert((a - v) * 0x2_0000_0000_0000 <= w * 0x2_0000_0000_0000 + v);
    assert((v - a) * 0x2_0000_0000_0000 <= w * 0x2_0000_0000_0000 + v);
    assert(off * 0x2_0000_0000_0000 <= dropped * 0x2_0000_0000_0000 + value && -off
        * 0x2_0000_0000_0000 <= dropped * 0x2_0000_0000_0000 + value) by (nonlinear_arith)
        requires
            off * unit == a - v,
            v == value * unit,
            w == dropped * unit,
            unit > 0,
            (a - v) * 0x2_0000_0000_0000 <= w * 0x2_0000_0000_0000 + v,
            (v - a) * 0x2_0000_0000_0000 <= w * 0x2_0000_0000_0000 + v,
    ;
}

/// A sample of a discharging battery joins the others, and of twenty the
/// oldest makes room for it; anything else leaves none.
pub proof fn law_samples_kept(
    samples: Seq<(u64, u8)>,
    charging: Option<bool>,
    percentage: Option<u8>,
    now: u64,
)
    ensures
        ({
            let after = observed(samples, charging, percentage, now);
            &&& charging == Some(false) && percentage is Some && samples.len() < 20 ==> after
                == samples.push((now, percentage->0))
            &&& charging == Some(false) && percentage is Some && samples.len() == 20 ==> after
                == samples.skip(1).push((now, percentage->0))
            &&& charging != Some(false) || percentage is None ==> after.len() == 0
        }),
{
}

/// A duration reads as its whole hours and minutes, and without hours where
/// it has none.
pub proof fn law_duration_text(nanos: nat, h: nat, m: nat)
    requires
        m < 60,
        (h * 60 + m) * 60000000000 <= nanos < (h * 60 + m + 1) * 60000000000,
    ensures
        h > 0 ==> eta_text(nanos) == decimal(h) + "h"@ + two_digits(m) + "m"@,
        h == 0 ==> eta_text(nanos) == decimal(m) + "m"@,
{
    let minutes = nanos / 1000000000 / 60;
    assert(minutes == h * 60 + m);
    assert(minutes / 60 == h && minutes % 60 == m);
}

} // verus!
