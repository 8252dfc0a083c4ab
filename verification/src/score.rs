//! The rank score of a candidate: `floor(decay * length^0.6 * frequency)`,
//! computed in exact integer arithmetic.
//!
//! The decay is a multiple of a quarter, so a score `s` is within the formula
//! exactly when `(4 s)^5 <= (quarters * frequency)^5 * length^3`. The score is
//! the largest such `s`, and never more than [`MAX_SCORE`].

use vstd::prelude::*;
use crate::wide::{two_192, two_64, Wide};

verus! {

/// The largest score that is ever given.
pub const MAX_SCORE: u64 = 2_147_483_647;

/// Four times the recency multiplier for a record of the given age in seconds:
/// 4.0 within the hour, 2.0 within the day, 0.5 within the week, 0.25 after.
pub open spec fn decay_quarters(age: int) -> nat {
    if age <= 3600 {
        16
    } else if age <= 86400 {
        8
    } else if age <= 604800 {
        2
    } else {
        1
    }
}

/// The fifth power.
pub open spec fn pow5(x: nat) -> nat {
    x * x * x * x * x
}

/// The third power.
pub open spec fn cube(x: nat) -> nat {
    x * x * x
}

/// The fifth power of `quarters * frequency * length^0.6`.
pub open spec fn radicand(quarters: nat, length: nat, frequency: nat) -> nat {
    pow5(quarters * frequency) * cube(length)
}

/// Whether `s <= (quarters / 4) * frequency * length^0.6`.
pub open spec fn within(s: nat, quarters: nat, length: nat, frequency: nat) -> bool {
    pow5(4 * s) <= radicand(quarters, length, frequency)
}

/// The largest `s <= bound` that is within the formula.
pub open spec fn largest_within(bound: nat, quarters: nat, length: nat, frequency: nat) -> nat
    decreases bound,
{
    if bound == 0 || within(bound, quarters, length, frequency) {
        bound
    } else {
        largest_within((bound - 1) as nat, quarters, length, frequency)
    }
}

/// The score of a record: `floor(decay(age) * length^0.6 * frequency)`, or
/// `MAX_SCORE` where that is larger.
pub open spec fn spec_score(length: nat, frequency: nat, age: int) -> nat {
    largest_within(MAX_SCORE as nat, decay_quarters(age), length, frequency)
}

/// Whether `score` is what a record of the given word length and frequency
/// scores at some age.
pub open spec fn is_possible_score(score: nat, length: nat, frequency: nat) -> bool {
    exists|age: int| score == #[trigger] spec_score(length, frequency, age)
}

/// A score is possible exactly when it is the score under one of the four
/// recency multipliers.
pub proof fn lemma_possible_scores(score: nat, length: nat, frequency: nat)
    ensures
        is_possible_score(score, length, frequency) <==> {
            ||| score == largest_within(MAX_SCORE as nat, 16, length, frequency)
            ||| score == largest_within(MAX_SCORE as nat, 8, length, frequency)
            ||| score == largest_within(MAX_SCORE as nat, 2, length, frequency)
            ||| score == largest_within(MAX_SCORE as nat, 1, length, frequency)
        },
{
    assert(spec_score(length, frequency, 0) == largest_within(
        MAX_SCORE as nat,
        16,
        length,
        frequency,
    ));
    assert(spec_score(length, frequency, 3601) == largest_within(
        MAX_SCORE as nat,
        8,
        length,
        frequency,
    ));
    assert(spec_score(length, frequency, 86401) == largest_within(
        MAX_SCORE as nat,
        2,
        length,
        frequency,
    ));
    assert(spec_score(length, frequency, 604801) == largest_within(
        MAX_SCORE as nat,
        1,
        length,
        frequency,
    ));
}

/// The fifth power grows with its base.
pub proof fn lemma_pow5_monotone(a: nat, b: nat)
    requires
        a <= b,
    ensures
        pow5(a) <= pow5(b),
{
    assert(a * a <= b * b) by (nonlinear_arith)
        requires
            a <= b,
    ;
    assert(a * a * a <= b * b * b) by (nonlinear_arith)
        requires
            a <= b,
            a * a <= b * b,
    ;
    assert(a * a * a * a <= b * b * b * b) by (nonlinear_arith)
        requires
            a <= b,
            a * a * a <= b * b * b,
    ;
    assert(a * a * a * a * a <= b * b * b * b * b) by (nonlinear_arith)
        requires
            a <= b,
            a * a * a * a <= b * b * b * b,
    ;
}

/// A smaller score is within the formula when a larger one is.
pub proof fn lemma_within_downward(s: nat, t: nat, quarters: nat, length: nat, frequency: nat)
    requires
        s <= t,
        within(t, quarters, length, frequency),
    ensures
        within(s, quarters, length, frequency),
{
    lemma_pow5_monotone(4 * s, 4 * t);
}

/// A score within the formula stays within it under a larger multiplier.
pub proof fn lemma_within_more_recent(s: nat, q1: nat, q2: nat, length: nat, frequency: nat)
    requires
        q1 <= q2,
        within(s, q1, length, frequency),
    ensures
        within(s, q2, length, frequency),
{
    assert(q1 * frequency <= q2 * frequency) by (nonlinear_arith)
        requires
            q1 <= q2,
    ;
    lemma_pow5_monotone(q1 * frequency, q2 * frequency);
    let c = cube(length);
    assert(pow5(q1 * frequency) * c <= pow5(q2 * frequency) * c) by (nonlinear_arith)
        requires
            pow5(q1 * frequency) <= pow5(q2 * frequency),
            c >= 0,
    ;
}

/// What `largest_within` returns: a score within the formula, with none
/// larger up to the bound.
pub proof fn lemma_largest_within(bound: nat, quarters: nat, length: nat, frequency: nat)
    ensures
        largest_within(bound, quarters, length, frequency) <= bound,
        within(largest_within(bound, quarters, length, frequency), quarters, length, frequency),
        forall|t: nat|
            largest_within(bound, quarters, length, frequency) < t <= bound ==> !within(
                t,
                quarters,
                length,
                frequency,
            ),
    decreases bound,
{
    if bound == 0 {
        assert(pow5(0) == 0) by (nonlinear_arith);
    } else if !within(bound, quarters, length, frequency) {
        lemma_largest_within((bound - 1) as nat, quarters, length, frequency);
    }
}

/// A score within the formula whose successor is not is the largest one.
pub proof fn lemma_largest_within_unique(
    s: nat,
    bound: nat,
    quarters: nat,
    length: nat,
    frequency: nat,
)
    requires
        s <= bound,
        within(s, quarters, length, frequency),
        s < bound ==> !within(s + 1, quarters, length, frequency),
    ensures
        largest_within(bound, quarters, length, frequency) == s,
{
    let r = largest_within(bound, quarters, length, frequency);
    lemma_largest_within(bound, quarters, length, frequency);
    if s < r {
        lemma_within_downward(s + 1, r, quarters, length, frequency);
    }
}

/// The recency multiplier changes at the ages of one hour, one day and one
/// week, and nowhere else: it is 4 up to the hour, 2 up to the day, 0.5 up to
/// the week and 0.25 beyond.
pub proof fn law_decay_steps(age: int)
    ensures
        decay_quarters(age) == 16 <==> age <= 3600,
        decay_quarters(age) == 8 <==> 3600 < age <= 86400,
        decay_quarters(age) == 2 <==> 86400 < age <= 604800,
        decay_quarters(age) == 1 <==> 604800 < age,
{
}

/// No score exceeds `MAX_SCORE`.
pub proof fn lemma_score_bound(length: nat, frequency: nat, age: int)
    ensures
        spec_score(length, frequency, age) <= MAX_SCORE,
{
    lemma_largest_within(MAX_SCORE as nat, decay_quarters(age), length, frequency);
}

/// The score never grows with age: for a fixed length and frequency, an older
/// record scores no more than a newer one.
pub proof fn law_score_falls_with_age(length: nat, frequency: nat, age1: int, age2: int)
    requires
        age1 <= age2,
    ensures
        spec_score(length, frequency, age2) <= spec_score(length, frequency, age1),
{
    let q1 = decay_quarters(age1);
    let q2 = decay_quarters(age2);
    let bound = MAX_SCORE as nat;
    let s1 = largest_within(bound, q1, length, frequency);
    let s2 = largest_within(bound, q2, length, frequency);
    lemma_largest_within(bound, q1, length, frequency);
    lemma_largest_within(bound, q2, length, frequency);
    lemma_within_more_recent(s2, q2, q1, length, frequency);
}

/// Four times the recency multiplier of a record last seen at
/// `last_access_time`, scored at `now`.
pub fn decay(last_access_time: u64, now: u64) -> (q: u64)
    ensures
        q == decay_quarters(now - last_access_time),
        1 <= q <= 16,
{
    if now <= last_access_time {
        16
    } else {
        let age: u64 = now - last_access_time;
        if age <= 3600 {
            16
        } else if age <= 86400 {
            8
        } else if age <= 604800 {
            2
        } else {
            1
        }
    }
}

/// One more factor of a product that is followed exactly while it is below
/// 2^192, and only known to be at least that from then on.
fn times(acc: Option<Wide>, y: u64, Ghost(v): Ghost<nat>) -> (r: Option<Wide>)
    requires
        y >= 1,
        match acc {
            Some(w) => w.value() == v,
            None => v >= two_192(),
        },
    ensures
        match r {
            Some(w) => w.value() == v * y,
            None => v * y >= two_192(),
        },
{
    proof {
        assert(v * y >= v) by (nonlinear_arith)
            requires
                y >= 1,
        ;
    }
    match acc {
        None => None,
        Some(w) => {
            if w.hi < 0x1_0000_0000_0000_0000 {
                Some(w.mul_small(y))
            } else {
                proof {
                    assert(w.hi * crate::wide::two_128() >= two_64() * crate::wide::two_128())
                        by (nonlinear_arith)
                        requires
                            w.hi >= two_64(),
                    ;
                }
                None
            }
        },
    }
}

/// The radicand of the formula, or `None` where it is 2^192 or more.
fn radicand_of(quarters: u64, length: u64, frequency: u64) -> (r: Option<Wide>)
    requires
        1 <= quarters <= 16,
    ensures
        match r {
            Some(w) => w.value() == radicand(quarters as nat, length as nat, frequency as nat),
            None => radicand(quarters as nat, length as nat, frequency as nat) >= two_192(),
        },
{
    let ghost q = quarters as nat;
    let ghost f = frequency as nat;
    let ghost l = length as nat;
    if frequency == 0 || length == 0 {
        proof {
            assert(radicand(q, l, f) == 0) by (nonlinear_arith)
                requires
                    f == 0 || l == 0,
                    radicand(q, l, f) == (q * f) * (q * f) * (q * f) * (q * f) * (q * f) * (l * l
                        * l),
            ;
        }
        return Some(Wide::from_u128(0));
    }
    let ghost a = q * f;
    assert(frequency * quarters <= 16 * 0xffff_ffff_ffff_ffff) by (nonlinear_arith)
        requires
            frequency <= 0xffff_ffff_ffff_ffff,
            quarters <= 16,
    ;
    let a1 = Some(Wide::from_u128(frequency as u128 * quarters as u128));
    assert(frequency * quarters == a) by (nonlinear_arith)
        requires
            a == q * f,
            q == quarters,
            f == frequency,
    ;
    let b2 = times(a1, frequency, Ghost(a));
    let a2 = times(b2, quarters, Ghost(a * f));
    assert(a * f * q == a * a) by (nonlinear_arith)
        requires
            a == q * f,
    ;
    let b3 = times(a2, frequency, Ghost(a * a));
    let a3 = times(b3, quarters, Ghost(a * a * f));
    assert(a * a * f * q == a * a * a) by (nonlinear_arith)
        requires
            a == q * f,
    ;
    let b4 = times(a3, frequency, Ghost(a * a * a));
    let a4 = times(b4, quarters, Ghost(a * a * a * f));
    assert(a * a * a * f * q == a * a * a * a) by (nonlinear_arith)
        requires
            a == q * f,
    ;
    let b5 = times(a4, frequency, Ghost(a * a * a * a));
    let a5 = times(b5, quarters, Ghost(a * a * a * a * f));
    assert(a * a * a * a * f * q == a * a * a * a * a) by (nonlinear_arith)
        requires
            a == q * f,
    ;
    let ghost p = pow5(a);
    let a6 = times(a5, length, Ghost(p));
    let a7 = times(a6, length, Ghost(p * l));
    let a8 = times(a7, length, Ghost(p * l * l));
    assert(p * l * l * l == p * (l * l * l)) by (nonlinear_arith);
    a8
}

/// Whether the score `s` is within the formula for the radicand `w`.
fn fits(s: u64, w: Wide, Ghost(radicand): Ghost<nat>) -> (r: bool)
    requires
        s <= MAX_SCORE,
        w.value() == radicand,
    ensures
        r == (pow5(4 * s as nat) <= radicand),
{
    let q: u64 = 4 * s;
    let x: u128 = q as u128;
    assert(x * x < 0x4_0000_0000_0000_0000 && x * x * x < 0x8_0000_0000_0000_0000_0000_0000
        && x * x * x * x < 0x10_0000_0000_0000_0000_0000_0000_0000_0000nat) by (nonlinear_arith)
        requires
            x < 0x2_0000_0000,
    ;
    let x3: u128 = x * x * x;
    let w3 = Wide::from_u128(x3);
    let w4 = w3.mul_small(q);
    assert(w4.value() == x * x * x * x);
    let ghost h = w4.hi as nat;
    let ghost t = crate::wide::two_128();
    assert(h < 16) by (nonlinear_arith)
        requires
            h * t + w4.lo < 16 * t,
            t > 0,
    ;
    let w5 = w4.mul_small(q);
    assert(w5.value() == pow5(4 * s as nat)) by (nonlinear_arith)
        requires
            w5.value() == (x * x * x * x) * x,
            x == 4 * s,
            pow5(4 * s as nat) == (4 * s) * (4 * s) * (4 * s) * (4 * s) * (4 * s),
    ;
    w5.at_most(w)
}

/// The score of a record of the given word length and frequency, last seen at
/// `last_access_time` and scored at `now`.
pub fn score(length: u64, frequency: u64, last_access_time: u64, now: u64) -> (s: u64)
    ensures
        s == spec_score(length as nat, frequency as nat, now - last_access_time),
        s <= MAX_SCORE,
{
    score_with(length, frequency, decay(last_access_time, now))
}

/// Whether `score` is what a record of the given word length and frequency
/// scores at some age.
pub fn is_possible(score: u64, length: u64, frequency: u64) -> (r: bool)
    ensures
        r == is_possible_score(score as nat, length as nat, frequency as nat),
{
    proof {
        lemma_possible_scores(score as nat, length as nat, frequency as nat);
    }
    score == score_with(length, frequency, 16) || score == score_with(length, frequency, 8)
        || score == score_with(length, frequency, 2) || score == score_with(length, frequency, 1)
}

/// The score under the recency multiplier of `quarters` quarters.
pub fn score_with(length: u64, frequency: u64, quarters: u64) -> (s: u64)
    requires
        1 <= quarters <= 16,
    ensures
        s == largest_within(MAX_SCORE as nat, quarters as nat, length as nat, frequency as nat),
        s <= MAX_SCORE,
{
    let ghost q = quarters as nat;
    let ghost l = length as nat;
    let ghost f = frequency as nat;
    let ghost rad = radicand(q, l, f);
    match radicand_of(quarters, length, frequency) {
        None => {
            proof {
                assert(pow5(4 * MAX_SCORE as nat) < two_192()) by (nonlinear_arith);
                lemma_largest_within_unique(MAX_SCORE as nat, MAX_SCORE as nat, q, l, f);
            }
            MAX_SCORE
        },
        Some(w) => {
            if fits(MAX_SCORE, w, Ghost(rad)) {
                proof {
                    lemma_largest_within_unique(MAX_SCORE as nat, MAX_SCORE as nat, q, l, f);
                }
                return MAX_SCORE;
            }
            let mut low: u64 = 0;
            let mut high: u64 = MAX_SCORE;
            assert(pow5(0) == 0) by (nonlinear_arith);
            while high - low > 1
                invariant
                    low < high <= MAX_SCORE,
                    w.value() == rad,
                    rad == radicand(q, l, f),
                    within(low as nat, q, l, f),
                    !within(high as nat, q, l, f),
                decreases high - low,
            {
                let mid: u64 = low + (high - low) / 2;
                if fits(mid, w, Ghost(rad)) {
                    low = mid;
                } else {
                    high = mid;
                }
            }
            proof {
                lemma_largest_within_unique(low as nat, MAX_SCORE as nat, q, l, f);
            }
            low
        },
    }
}

} // verus!
