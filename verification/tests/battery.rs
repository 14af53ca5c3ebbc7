use std::time::Duration;
use vigil::battery::{format_eta, BatteryTrend, MAX_SAMPLES, NANOS_PER_SEC};

fn secs(n: u64) -> u64 {
    1_000_000_000_000 + n * 1_000_000_000
}

fn lasting(n: u128) -> u128 {
    n * NANOS_PER_SEC
}

#[test]
fn no_eta_without_enough_samples() {
    let mut t = BatteryTrend::new();
    t.record(Some(false), Some(90), secs(0));
    t.record(Some(false), Some(89), secs(60));
    assert!(t.eta().is_none(), "2 samples is below MIN_SAMPLES_FOR_ETA");
}

#[test]
fn no_eta_while_charging() {
    let mut t = BatteryTrend::new();
    for i in 0..5u8 {
        t.record(Some(true), Some(50 + i), secs(i as u64 * 60));
    }
    assert!(t.eta().is_none());
}

#[test]
fn no_eta_when_charging_state_unknown() {
    let mut t = BatteryTrend::new();
    for i in 0..5 {
        t.record(None, Some(50), secs(i * 60));
    }
    assert!(t.eta().is_none());
}

#[test]
fn no_eta_when_percentage_flat_or_rising() {
    let mut t = BatteryTrend::new();
    t.record(Some(false), Some(80), secs(0));
    t.record(Some(false), Some(80), secs(300));
    t.record(Some(false), Some(81), secs(600));
    assert!(t.eta().is_none(), "percentage went up, not down");
}

#[test]
fn eta_is_reasonable_for_steady_drain() {
    let mut t = BatteryTrend::new();
    t.record(Some(false), Some(100), secs(0));
    t.record(Some(false), Some(95), secs(300));
    t.record(Some(false), Some(90), secs(600));

    let eta = t.eta().expect("should have an ETA with 3 discharging samples");
    let expected = lasting(90 * 60);
    let diff = (eta / NANOS_PER_SEC).abs_diff(expected / NANOS_PER_SEC);
    assert!(diff < 5, "expected ~{expected:?}, got {eta:?}");
    assert_eq!(eta, expected);
}

#[test]
fn eta_is_worked_out_in_floating_point() {
    for nanos in [1u64, 3, 999_999_999, 1_000_000_001, 600_123_456_789, 7_200_000_000_001, 86_399_999_999_999] {
        for (from, to) in [(100u8, 99u8), (100, 93), (87, 80), (50, 1), (3, 2), (1, 0), (255, 128)] {
            let mut t = BatteryTrend::new();
            t.record(Some(false), Some(from), 5);
            t.record(Some(false), Some(from), 5);
            t.record(Some(false), Some(to), 5 + nanos);
            let secs_per_percent = Duration::from_nanos(nanos).as_secs_f64() / (from - to) as f64;
            let expected = Duration::from_secs_f64(secs_per_percent * to as f64);
            assert_eq!(t.eta(), Some(expected.as_nanos()), "{nanos} for {from} to {to}");
        }
    }
}

#[test]
fn resets_when_charging_resumes() {
    let mut t = BatteryTrend::new();
    t.record(Some(false), Some(100), secs(0));
    t.record(Some(false), Some(95), secs(300));
    t.record(Some(false), Some(90), secs(600));
    assert!(t.eta().is_some());

    t.record(Some(true), Some(91), secs(660));
    assert!(t.eta().is_none(), "a charging sample must clear the discharge trend");

    t.record(Some(false), Some(90), secs(720));
    assert!(t.eta().is_none());
}

#[test]
fn format_eta_hours_and_minutes() {
    assert_eq!(format_eta(lasting(90 * 60)), "1h30m");
    assert_eq!(format_eta(lasting(45 * 60)), "45m");
    assert_eq!(format_eta(0), "0m");
}

#[test]
fn format_eta_pads_minutes_behind_hours() {
    assert_eq!(format_eta(lasting(2 * 3600 + 5 * 60 + 59)), "2h05m");
}

#[test]
fn the_window_forgets_the_oldest_samples() {
    let mut t = BatteryTrend::new();
    t.record(Some(false), Some(100), secs(0));
    for i in 0..MAX_SAMPLES as u64 {
        t.record(Some(false), Some(60 - i as u8), secs(10_000 + i * 60));
    }
    // Only the steady drain of a percent a minute is left.
    assert_eq!(t.eta(), Some(lasting(41 * 60)));
}
