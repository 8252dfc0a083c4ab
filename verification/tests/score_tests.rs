use alman::record::{calculate_score, create_prefix_command, Command};
use alman::score::{decay, is_possible, score, score_with, MAX_SCORE};
use alman::wide::Wide;

fn within(s: u64, quarters: u64, length: u64, frequency: u64) -> bool {
    let left = (4 * s as u128).pow(5);
    let right = (quarters as u128 * frequency as u128).pow(5) * (length as u128).pow(3);
    left <= right
}

#[test]
fn decay_steps_at_the_hour_the_day_and_the_week() {
    let now = 2_000_000_000u64;
    assert_eq!(decay(now, now), 16);
    assert_eq!(decay(now + 5, now), 16);
    assert_eq!(decay(now - 3600, now), 16);
    assert_eq!(decay(now - 3601, now), 8);
    assert_eq!(decay(now - 86400, now), 8);
    assert_eq!(decay(now - 86401, now), 2);
    assert_eq!(decay(now - 604800, now), 2);
    assert_eq!(decay(now - 604801, now), 1);
    assert_eq!(decay(0, now), 1);
}

#[test]
fn score_of_a_perfect_fifth_power_is_exact() {
    let now = 2_000_000_000u64;
    // 32^0.6 = 8, 243^0.6 = 27, 1024^0.6 = 64
    assert_eq!(score(32, 1, now, now), 32);
    assert_eq!(score(32, 1, now - 3601, now), 16);
    assert_eq!(score(32, 1, now - 86401, now), 4);
    assert_eq!(score(32, 1, now - 604801, now), 2);
    assert_eq!(score(243, 1, now, now), 108);
    assert_eq!(score(243, 3, now - 604801, now), 20);
    assert_eq!(score(1024, 5, now, now), 1280);
    assert_eq!(score(1, 1, now, now), 4);
    assert_eq!(score(1, 1, now - 604801, now), 0);
    assert_eq!(score(1, 7, now - 604801, now), 1);
}

#[test]
fn score_is_the_floor_of_the_formula() {
    let now = 2_000_000_000u64;
    // 9^0.6 = 3.7371..., 15^0.6 = 5.0777...
    assert_eq!(score(9, 1, now, now), 14);
    assert_eq!(score(9, 2, now, now), 29);
    assert_eq!(score(15, 1, now, now), 20);
    assert_eq!(score(15, 1, now - 4000, now), 10);
    assert_eq!(score(15, 1, now - 90000, now), 2);
    assert_eq!(score(15, 1, now - 700000, now), 1);
}

#[test]
fn score_of_nothing_is_zero() {
    let now = 2_000_000_000u64;
    assert_eq!(score(0, 5, now, now), 0);
    assert_eq!(score(5, 0, now, now), 0);
    assert_eq!(score(0, 0, now, now), 0);
}

#[test]
fn score_stops_at_the_maximum() {
    let now = 2_000_000_000u64;
    assert_eq!(MAX_SCORE, 2_147_483_647);
    assert_eq!(score(u64::MAX, u64::MAX, now, now), MAX_SCORE);
    assert_eq!(score(1, u64::MAX, 0, now), MAX_SCORE);
    assert_eq!(score(u64::MAX, 1, 0, now), MAX_SCORE);
    assert_eq!(score(1, 536_870_912, now, now), MAX_SCORE);
    assert_eq!(score(1, 536_870_911, now, now), 2_147_483_644);
    assert_eq!(score(32, 67_108_864, now, now), MAX_SCORE);
    assert_eq!(score(32, 67_108_863, now, now), 2_147_483_616);
}

#[test]
fn score_is_the_largest_within_the_formula() {
    let now = 2_000_000_000u64;
    let ages = [0u64, 3600, 3601, 86400, 86401, 604800, 604801, 10_000_000];
    for length in [1u64, 2, 3, 5, 9, 15, 31, 32, 33, 100, 1000, 4095] {
        for frequency in [1u64, 2, 3, 10, 99, 1000, 5_000] {
            for age in ages {
                let last = now - age;
                let s = score(length, frequency, last, now);
                let quarters = decay(last, now);
                assert!(within(s, quarters, length, frequency));
                assert!(!within(s + 1, quarters, length, frequency));
                let real = (quarters as f64 / 4.0) * (length as f64).powf(0.6) * frequency as f64;
                assert!((real - s as f64).abs() <= 1.0 + real * 1e-9);
            }
        }
    }
}

#[test]
fn score_falls_with_age() {
    let now = 2_000_000_000u64;
    let ages = [0u64, 1, 3600, 3601, 50_000, 86400, 86401, 300_000, 604800, 604801, 99_999_999];
    for length in [1u64, 9, 32, 500] {
        for frequency in [1u64, 4, 77] {
            let mut previous = u64::MAX;
            for age in ages {
                let s = score(length, frequency, now - age, now);
                assert!(s <= previous);
                previous = s;
            }
        }
    }
}

#[test]
fn record_score_is_that_of_its_fields() {
    let now = 2_000_000_000u64;
    let c = Command {
        score: 0,
        last_access_time: now - 3601,
        frequency: 3,
        length: 32,
        command_text: String::from("ignored"),
        number_of_words: 1,
    };
    assert_eq!(calculate_score(&c, now), 48);
    assert_eq!(calculate_score(&c, now - 1), 96);
}

#[test]
fn prefix_command_is_seen_once() {
    let now = 2_000_000_000u64;
    let c = create_prefix_command("git commit -m", now - 120, now);
    assert_eq!(c.command_text, "git commit -m");
    assert_eq!(c.frequency, 1);
    assert_eq!(c.last_access_time, now - 120);
    assert_eq!(c.length, 11);
    assert_eq!(c.number_of_words, 3);
    assert_eq!(c.score, score(11, 1, now - 120, now));
    assert_eq!(c.score, 16);
    assert!(c.is_valid());
}

#[test]
fn record_validity() {
    let now = 2_000_000_000u64;
    let good = Command::new("ls -la /tmp", 2, now, now);
    assert!(good.is_valid());
    assert_eq!((good.length, good.number_of_words), (9, 3));
    let copy = good.copy();
    assert_eq!(copy.command_text, good.command_text);
    assert_eq!(copy.score, good.score);
    assert_eq!(copy.frequency, 2);
    let mut bad = good.copy();
    bad.length = 10;
    assert!(!bad.is_valid());
    let mut bad = good.copy();
    bad.number_of_words = 2;
    assert!(!bad.is_valid());
    let mut bad = good.copy();
    bad.frequency = 0;
    assert!(!bad.is_valid());
    let mut bad = good.copy();
    bad.score = MAX_SCORE + 1;
    assert!(!bad.is_valid());
    let mut bad = good.copy();
    bad.score = good.score + 1;
    assert!(!bad.is_valid());
    // 9^0.6 * 2 = 7.47...: the four multipliers give 29, 14, 3 and 1
    for (s, possible) in [(29, true), (14, true), (3, true), (1, true), (0, false), (7, false), (30, false)] {
        let mut c = good.copy();
        c.score = s;
        assert_eq!(c.is_valid(), possible, "{}", s);
    }
}

#[test]
fn score_under_each_multiplier() {
    assert_eq!(score_with(32, 1, 16), 32);
    assert_eq!(score_with(32, 1, 8), 16);
    assert_eq!(score_with(32, 1, 2), 4);
    assert_eq!(score_with(32, 1, 1), 2);
    assert_eq!(score_with(32, 3, 4), 24);
    assert!(is_possible(32, 32, 1));
    assert!(is_possible(16, 32, 1));
    assert!(is_possible(4, 32, 1));
    assert!(is_possible(2, 32, 1));
    assert!(!is_possible(8, 32, 1));
    assert!(!is_possible(0, 32, 1));
    assert!(is_possible(0, 0, 9));
    assert!(!is_possible(1, 0, 9));
}

#[test]
fn wide_multiplication_and_order() {
    let a = Wide::from_u128(u128::MAX);
    let b = a.mul_small(u64::MAX);
    // (2^128 - 1)(2^64 - 1) = 2^192 - 2^128 - 2^64 + 1
    assert_eq!(b.hi, (1u128 << 64) - 2);
    assert_eq!(b.lo, u128::MAX - (1u128 << 64) + 2);
    let c = Wide::from_u128(12345).mul_small(1000);
    assert_eq!((c.hi, c.lo), (0, 12_345_000));
    assert!(c.at_most(b));
    assert!(!b.at_most(c));
    assert!(b.at_most(b));
    let d = Wide { hi: 1, lo: 0 };
    assert!(a.at_most(d));
    assert!(!d.at_most(a));
    let e = Wide { hi: 3, lo: 7 }.mul_small(0);
    assert_eq!((e.hi, e.lo), (0, 0));
}
