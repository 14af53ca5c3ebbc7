use vigil::float::{divide, increase, is_above, is_below, multiply, ratio_of, whole_of, DOUBLE, SINGLE};
use vigil::number::{hundredths_text, nearest_int, number_at, tenths_text, units_text};
use vigil::stamps::Stamps;
use vigil::text::{contains_text, is_le, trimmed};

#[test]
fn halves_round_to_even() {
    assert_eq!(units_text(5, 2), "2");
    assert_eq!(units_text(7, 2), "4");
    assert_eq!(units_text(5, 2), format!("{:.0}", 2.5));
    assert_eq!(tenths_text(1, 4), format!("{:.1}", 0.25));
    assert_eq!(tenths_text(3, 4), format!("{:.1}", 0.75));
    assert_eq!(hundredths_text(1, 8), format!("{:.2}", 0.125));
    assert_eq!(hundredths_text(25, 8), "3.12");
    assert_eq!(nearest_int(10, 4), 2);
}

#[test]
fn numbers_are_written_as_floats_are() {
    for (num, den) in [(0u64, 1u64), (1, 3), (2, 3), (999, 10), (17_671_000_000, 1_000_000), (123_456_789, 1_000)] {
        let x = num as f64 / den as f64;
        assert_eq!(units_text(num as u128, den as u128), format!("{x:.0}"));
        assert_eq!(tenths_text(num as u128, den as u128), format!("{x:.1}"));
        assert_eq!(hundredths_text(num as u128, den as u128), format!("{x:.2}"));
    }
}

/// Numbers of every size, the same on every run.
fn samples(count: usize) -> Vec<u64> {
    let mut state: u64 = 0x9e37_79b9_7f4a_7c15;
    let mut all = vec![1, 2, 3, 10, 100, 16_777_215, 16_777_217, (1 << 53) - 1, (1 << 53) + 1, u64::MAX];
    for _ in 0..count {
        state = state.wrapping_mul(6_364_136_223_846_793_005).wrapping_add(1_442_695_040_888_963_407);
        all.push((state >> (state % 61)).max(1));
    }
    all
}

#[test]
fn integers_become_the_nearest_floats() {
    assert_eq!(whole_of((1 << 53) + 1, DOUBLE), 1 << 53);
    assert_eq!(whole_of((1 << 53) + 3, DOUBLE), (1 << 53) + 4);
    for n in samples(2_000) {
        assert_eq!(whole_of(n as u128, DOUBLE), n as f64 as u128);
        assert_eq!(whole_of(n as u128, SINGLE), n as f32 as u128);
    }
}

#[test]
fn quotients_are_those_of_floats() {
    let all = samples(150);
    for &n in &all {
        for &d in &all {
            let (a, b) = ratio_of(n, d, DOUBLE);
            let x = n as f64 / d as f64;
            assert_eq!(a as f64 / b as f64, x, "{n} / {d}");
            let (p, q) = multiply((a, b), 100, DOUBLE);
            assert_eq!(p as f64 / q as f64, x * 100.0, "{n} / {d}");
            assert_eq!(is_below((a, b), 3_602_879_701_896_397, 1 << 56), x < 0.05, "{n} / {d}");
            assert_eq!(is_above((a, b), 3_602_879_701_896_397, 1 << 55), x > 0.1, "{n} / {d}");
            let (a, b) = ratio_of(n, d, SINGLE);
            let x = n as f32 / d as f32;
            assert_eq!(a as f32 / b as f32, x, "{n} / {d}");
            let (p, q) = multiply((a, b), 100, SINGLE);
            assert_eq!(p as f32 / q as f32, x * 100.0, "{n} / {d}");
        }
    }
}

#[test]
fn sums_are_those_of_floats() {
    for n in samples(2_000) {
        let (secs, nanos) = (n / 1_000_000_000, n % 1_000_000_000);
        let (a, b) = increase(secs as u128, divide(nanos as u128, 1_000_000_000, DOUBLE), DOUBLE);
        assert_eq!(a as f64 / b as f64, std::time::Duration::from_nanos(n).as_secs_f64(), "{n}");
    }
}

#[test]
fn numbers_are_read_as_rust_reads_them() {
    for text in ["0", "007", "+5", "255", "256", "", "+", "-1", " 1", "1x", "99999999999999999999"] {
        let cs: Vec<char> = text.chars().collect();
        assert_eq!(number_at(&cs, 0, cs.len(), 255), text.parse::<u8>().ok().map(|n| n as u64), "{text:?}");
    }
}

#[test]
fn texts_compare_as_rust_compares_them() {
    let samples = ["", "a", "b", "ab", "é", "z", "\u{ffff}", "\u{10000}"];
    for a in samples {
        for b in samples {
            assert_eq!(is_le(a, b), a <= b, "{a:?} {b:?}");
        }
    }
}

#[test]
fn white_space_is_trimmed() {
    assert_eq!(trimmed("\u{a0}\t a b \u{3000}\n"), "a b");
    assert!(contains_text("abcabd", "abd"));
    assert!(contains_text("abc", ""));
    assert!(!contains_text("abc", "abd"));
}

#[test]
fn stamps_keep_the_latest_time_of_each_name() {
    let mut s = Stamps::new();
    assert_eq!(s.get("a"), None);
    s.set("a", 5);
    s.set("b", 9);
    s.set("a", 7);
    assert_eq!(s.get("a"), Some(7));
    assert_eq!(s.count_recent(2, 10), 1);
    assert_eq!(s.count_recent(3, 10), 2);
}
