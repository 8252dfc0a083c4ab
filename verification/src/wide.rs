//! Unsigned 256-bit integers, as far as scoring needs them: multiplication by
//! a 64-bit factor and comparison.

use vstd::prelude::*;

verus! {

/// 2^64.
pub open spec fn two_64() -> nat {
    0x1_0000_0000_0000_0000
}

/// 2^128.
pub open spec fn two_128() -> nat {
    0x1_0000_0000_0000_0000_0000_0000_0000_0000nat
}

/// 2^192.
pub open spec fn two_192() -> nat {
    0x1_0000_0000_0000_0000_0000_0000_0000_0000_0000_0000_0000_0000nat
}

/// A 256-bit unsigned integer in two halves.
#[derive(Clone, Copy)]
pub struct Wide {
    pub hi: u128,
    pub lo: u128,
}

impl Wide {
    /// The number that the two halves stand for.
    pub open spec fn value(self) -> nat {
        self.hi as nat * two_128() + self.lo as nat
    }

    /// The wide number of the same value.
    pub fn from_u128(x: u128) -> (r: Wide)
        ensures
            r.value() == x,
    {
        Wide { hi: 0, lo: x }
    }

    /// `self * y`, for a number below 2^192.
    pub fn mul_small(self, y: u64) -> (r: Wide)
        requires
            self.hi < two_64(),
        ensures
            r.value() == self.value() * y,
    {
        let base: u128 = 0x1_0000_0000_0000_0000;
        let f: u128 = y as u128;
        let l0: u128 = self.lo % base;
        let l1: u128 = self.lo / base;
        proof {
            lemma_product_below(l0 as nat, f as nat);
            lemma_product_below(l1 as nat, f as nat);
            lemma_product_below(self.hi as nat, f as nat);
        }
        let part_a: u128 = l0 * f;
        let part_b: u128 = l1 * f;
        let part_c: u128 = self.hi * f;
        let a_low: u128 = part_a % base;
        let a_high: u128 = part_a / base;
        let b_low: u128 = part_b % base;
        let b_high: u128 = part_b / base;
        let mid: u128 = a_high + b_low;
        let lo: u128 = (mid % base) * base + a_low;
        let hi: u128 = part_c + b_high + mid / base;
        proof {
            let b = two_64();
            assert(two_128() == b * b) by (nonlinear_arith)
                requires
                    b == two_64(),
            ;
            assert(self.value() * y == part_c * (b * b) + part_b * b + part_a) by (nonlinear_arith)
                requires
                    self.value() == self.hi * (b * b) + l1 * b + l0,
                    part_a == l0 * y,
                    part_b == l1 * y,
                    part_c == self.hi * y,
            ;
            assert(hi * (b * b) + lo == part_c * (b * b) + part_b * b + part_a) by (nonlinear_arith)
                requires
                    hi == part_c + b_high + mid / (b as u128),
                    lo == (mid % (b as u128)) * b + a_low,
                    mid == a_high + b_low,
                    part_a == a_high * b + a_low,
                    part_b == b_high * b + b_low,
                    mid == (mid / (b as u128)) * b + mid % (b as u128),
            ;
        }
        Wide { hi, lo }
    }

    /// Whether `self` is at most `other`.
    pub fn at_most(self, other: Wide) -> (r: bool)
        ensures
            r == (self.value() <= other.value()),
    {
        proof {
            lemma_halves_order(self, other);
        }
        self.hi < other.hi || (self.hi == other.hi && self.lo <= other.lo)
    }
}

/// Two numbers below 2^64 have a product below 2^128.
pub proof fn lemma_product_below(a: nat, b: nat)
    requires
        a < two_64(),
        b < two_64(),
    ensures
        a * b <= 0xffff_ffff_ffff_ffff_ffff_ffff_ffff_ffff - 2 * 0xffff_ffff_ffff_ffff,
{
    assert(a * b <= 0xffff_ffff_ffff_ffff * 0xffff_ffff_ffff_ffff) by (nonlinear_arith)
        requires
            a <= 0xffff_ffff_ffff_ffff,
            b <= 0xffff_ffff_ffff_ffff,
    ;
}

/// The order of two wide numbers is the order of their halves, upper half first.
pub proof fn lemma_halves_order(a: Wide, b: Wide)
    ensures
        a.value() <= b.value() <==> (a.hi < b.hi || (a.hi == b.hi && a.lo <= b.lo)),
{
    let t = two_128();
    if a.hi < b.hi {
        assert(a.hi * t + t <= b.hi * t) by (nonlinear_arith)
            requires
                a.hi + 1 <= b.hi,
        ;
    } else if a.hi > b.hi {
        assert(b.hi * t + t <= a.hi * t) by (nonlinear_arith)
            requires
                b.hi + 1 <= a.hi,
        ;
    }
}

} // verus!
