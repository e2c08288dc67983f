//! Binary floating-point numbers, held as bit patterns, with correctly rounded
//! arithmetic.
//!
//! A pattern is a sign bit above a magnitude. The magnitudes of a format lie on a
//! grid of multiples of its smallest positive number; every operation computes
//! the exact result as a fraction of that unit and takes the grid point nearest
//! to it, the even one of two that are equally near.
use crate::bignat::BigNat;
use vstd::arithmetic::power2::{lemma_pow2_adds, lemma_pow2_pos, pow2};
use vstd::prelude::*;

verus! {

/// The grid point of magnitude `b`, in units of the format's smallest positive
/// number, for a format with `p` fraction bits.
pub open spec fn grid(p: nat, b: nat) -> nat {
    if b < pow2(p) {
        b
    } else {
        (pow2(p) + b % pow2(p)) * pow2((b / pow2(p) - 1) as nat)
    }
}

/// Whether rounding `num / den` takes it to magnitude `b` or above: it lies past
/// the midpoint below `b`, or on that midpoint while `b` is even.
pub open spec fn reaches(p: nat, num: nat, den: nat, b: nat) -> bool {
    b == 0 || {
        let twice_mid = grid(p, (b - 1) as nat) + grid(p, b);
        twice_mid * den < 2 * num || (twice_mid * den == 2 * num && b % 2 == 0)
    }
}

/// That `b` is the magnitude to which `num / den` rounds, where `top` stands for
/// infinity.
pub open spec fn is_nearest(p: nat, top: nat, num: nat, den: nat, b: nat) -> bool {
    &&& b <= top
    &&& reaches(p, num, den, b)
    &&& b < top ==> !reaches(p, num, den, b + 1)
}

/// The magnitude to which `num / den` rounds.
pub open spec fn nearest(p: nat, top: nat, num: nat, den: nat) -> nat {
    choose|b: nat| is_nearest(p, top, num, den, b)
}

/// Larger magnitudes stand for larger numbers.
pub proof fn lemma_grid_increases(p: nat, b: nat)
    ensures
        grid(p, b) < grid(p, b + 1),
{
    let h = pow2(p);
    lemma_pow2_pos(p);
    if b + 1 < h {
    } else if b + 1 == h {
        vstd::arithmetic::power2::lemma2_to64();
        assert(h % h == 0) by (nonlinear_arith)
            requires
                h > 0,
        ;
        assert(h / h == 1) by (nonlinear_arith)
            requires
                h > 0,
        ;
        assert((h + 0) * 1 == h) by (nonlinear_arith);
    } else {
        let q = b / h;
        let r = b % h;
        vstd::arithmetic::div_mod::lemma_fundamental_div_mod(b as int, h as int);
        assert(q >= 1) by (nonlinear_arith)
            requires
                b == h * q + r,
                r < h,
                b >= h,
        ;
        let e = pow2((q - 1) as nat);
        lemma_pow2_pos((q - 1) as nat);
        if r + 1 < h {
            vstd::arithmetic::div_mod::lemma_fundamental_div_mod_converse(
                (b + 1) as int,
                h as int,
                q as int,
                (r + 1) as int,
            );
            assert((h + r) * e < (h + (r + 1)) * e) by (nonlinear_arith)
                requires
                    e > 0,
            ;
        } else {
            assert(b + 1 == h * (q + 1)) by (nonlinear_arith)
                requires
                    b == h * q + r,
                    r + 1 == h,
            ;
            vstd::arithmetic::div_mod::lemma_fundamental_div_mod_converse(
                (b + 1) as int,
                h as int,
                (q + 1) as int,
                0,
            );
            vstd::arithmetic::power2::lemma_pow2_unfold(q);
            assert((h + r) * e < (h + 0) * (2 * e)) by (nonlinear_arith)
                requires
                    e > 0,
                    r + 1 == h,
            ;
        }
    }
}

proof fn lemma_reaches_downward(p: nat, num: nat, den: nat, b: nat, c: nat)
    requires
        den > 0,
        b <= c,
        reaches(p, num, den, c),
    ensures
        reaches(p, num, den, b),
    decreases c,
{
    if b < c && b > 0 {
        let d = (c - 1) as nat;
        lemma_grid_increases(p, (d - 1) as nat);
        lemma_grid_increases(p, d);
        let low = grid(p, (d - 1) as nat) + grid(p, d);
        let high = grid(p, d) + grid(p, c);
        assert(low * den < high * den) by (nonlinear_arith)
            requires
                low < high,
                den > 0,
        ;
        assert(reaches(p, num, den, d));
        lemma_reaches_downward(p, num, den, b, d);
    }
}

/// Rounding has one result.
pub proof fn lemma_nearest_unique(p: nat, top: nat, num: nat, den: nat, b: nat)
    requires
        den > 0,
        is_nearest(p, top, num, den, b),
    ensures
        nearest(p, top, num, den) == b,
{
    let c = nearest(p, top, num, den);
    assert(is_nearest(p, top, num, den, c));
    if b < c {
        lemma_reaches_downward(p, num, den, b + 1, c);
    } else if c < b {
        lemma_reaches_downward(p, num, den, c + 1, b);
    }
}

/// The grid point of magnitude `b`.
fn grid_point(p: u32, b: u64) -> (r: BigNat)
    requires
        p <= 62,
        b as nat / pow2(p as nat) < 0x1_0000_0000,
    ensures
        r@ == grid(p as nat, b as nat),
{
    let half: u64 = 1u64 << p;
    proof {
        vstd::arithmetic::power2::lemma2_to64();
        vstd::arithmetic::power2::lemma_pow2_strictly_increases(p as nat, 63);
        vstd::arithmetic::power2::lemma2_to64_rest();
        vstd::bits::lemma_u64_shl_is_mul(1, p as u64);
        lemma_pow2_pos(p as nat);
    }
    if b < half {
        BigNat::from_u64(b)
    } else {
        let rest: u64 = b % half;
        let steps: u64 = b / half;
        proof {
            assert(steps >= 1) by (nonlinear_arith)
                requires
                    b >= half,
                    half > 0,
                    steps == b / half,
            ;
        }
        BigNat::from_u64(half + rest).shifted((steps - 1) as u32)
    }
}

/// The magnitude to which `num / den` rounds.
fn round_to_grid(p: u32, top: u64, num: &BigNat, den: &BigNat) -> (b: u64)
    requires
        p <= 62,
        den@ > 0,
        top < 0x8000_0000_0000_0000,
        top as nat / pow2(p as nat) < 0x1_0000_0000,
    ensures
        b == nearest(p as nat, top as nat, num@, den@),
        is_nearest(p as nat, top as nat, num@, den@, b as nat),
{
    let twice = num.plus(num);
    let mut low: u64 = 0;
    let mut high: u64 = top + 1;
    while high - low > 1
        invariant
            p <= 62,
            top < 0x8000_0000_0000_0000,
            top as nat / pow2(p as nat) < 0x1_0000_0000,
            low < high <= top + 1,
            twice@ == 2 * num@,
            reaches(p as nat, num@, den@, low as nat),
            high <= top ==> !reaches(p as nat, num@, den@, high as nat),
        decreases high - low,
    {
        let mid: u64 = low + (high - low) / 2;
        proof {
            lemma_pow2_pos(p as nat);
            vstd::arithmetic::div_mod::lemma_div_is_ordered(
                mid as int,
                top as int,
                pow2(p as nat) as int,
            );
            vstd::arithmetic::div_mod::lemma_div_is_ordered(
                mid - 1,
                top as int,
                pow2(p as nat) as int,
            );
        }
        let below = grid_point(p, mid - 1);
        let here = grid_point(p, mid);
        let edge = below.plus(&here).times(den);
        let past: bool = edge.less(&twice) || (!twice.less(&edge) && mid % 2 == 0);
        if past {
            low = mid;
        } else {
            high = mid;
        }
    }
    proof {
        lemma_nearest_unique(p as nat, top as nat, num@, den@, low as nat);
    }
    low
}

/// The sign bit of a 64-bit pattern.
pub const SIGN_64: u64 = 0x8000_0000_0000_0000;

/// The magnitude of a 64-bit infinity.
pub const TOP_64: u64 = 0x7ff0_0000_0000_0000;

/// A 64-bit not-a-number.
pub const NAN_64: u64 = 0x7ff8_0000_0000_0000;

/// The sign bit of a 32-bit pattern.
pub const SIGN_32: u32 = 0x8000_0000;

/// The magnitude of a 32-bit infinity.
pub const TOP_32: u32 = 0x7f80_0000;

/// A 32-bit not-a-number.
pub const NAN_32: u32 = 0x7fc0_0000;

/// The number of smallest positive 64-bit numbers in one.
pub open spec fn one_64() -> nat {
    pow2(1074)
}

/// The number of smallest positive 64-bit numbers in the smallest 32-bit one.
pub open spec fn one_32_unit() -> nat {
    pow2(925)
}

/// The 64-bit magnitude to which `num / den` rounds.
pub open spec fn nearest_64(num: nat, den: nat) -> nat {
    nearest(52, TOP_64 as nat, num, den)
}

/// The 32-bit magnitude to which `num / den` rounds.
pub open spec fn nearest_32(num: nat, den: nat) -> nat {
    nearest(23, TOP_32 as nat, num, den)
}

/// A 64-bit floating-point number.
#[derive(Clone, Copy, Debug, PartialEq, Eq, Structural)]
pub struct Binary64 {
    /// The bit pattern: sign, eleven exponent bits, fifty-two fraction bits.
    pub bits: u64,
}

/// A 32-bit floating-point number.
#[derive(Clone, Copy, Debug, PartialEq, Eq, Structural)]
pub struct Binary32 {
    /// The bit pattern: sign, eight exponent bits, twenty-three fraction bits.
    pub bits: u32,
}

impl Binary64 {
    /// Whether the sign bit is set.
    pub open spec fn sign(self) -> bool {
        self.bits >= SIGN_64
    }

    /// The pattern without its sign bit.
    pub open spec fn magnitude(self) -> nat {
        if self.sign() {
            (self.bits - SIGN_64) as nat
        } else {
            self.bits as nat
        }
    }

    /// Whether the pattern stands for no number.
    pub open spec fn nan(self) -> bool {
        self.magnitude() > TOP_64
    }

    /// Whether the pattern is an infinity.
    pub open spec fn infinite(self) -> bool {
        self.magnitude() == TOP_64
    }

    /// Whether the pattern is a finite number.
    pub open spec fn finite(self) -> bool {
        self.magnitude() < TOP_64
    }

    /// The absolute value of a finite number, in smallest positive numbers.
    pub open spec fn units(self) -> nat {
        grid(52, self.magnitude())
    }

    /// The value of a finite number, in smallest positive numbers.
    pub open spec fn amount(self) -> int {
        if self.sign() {
            -(self.units() as int)
        } else {
            self.units() as int
        }
    }

    /// The place of a number in the order of all numbers.
    pub open spec fn rank(self) -> int {
        if self.sign() {
            -(self.magnitude() as int)
        } else {
            self.magnitude() as int
        }
    }

    /// Whether this is a number, finite or not, that is not negative.
    pub open spec fn nonnegative(self) -> bool {
        !self.nan() && self.rank() >= 0
    }

    /// Whether this is a finite number that is not negative, and at most `2^k` smallest
    /// positive numbers.
    pub open spec fn bounded(self, k: nat) -> bool {
        self.finite() && self.rank() >= 0 && self.units() <= pow2(k)
    }

    /// The number with the given sign and magnitude.
    pub open spec fn from_parts(sign: bool, magnitude: nat) -> Binary64 {
        Binary64 {
            bits: if sign {
                (magnitude + SIGN_64) as u64
            } else {
                magnitude as u64
            },
        }
    }

    /// The number nearest to `num / den`, where `den` is not zero.
    pub open spec fn ratio_of(num: nat, den: nat) -> Binary64 {
        Self::from_parts(false, nearest_64(num * one_64(), den))
    }

    /// The number nearest to the integer `n`.
    pub open spec fn of(n: nat) -> Binary64 {
        Self::ratio_of(n, 1)
    }

    /// The sum of two numbers.
    pub open spec fn sum(self, other: Binary64) -> Binary64 {
        if self.nan() || other.nan() {
            Binary64 { bits: NAN_64 }
        } else if self.infinite() && other.infinite() && self.sign() != other.sign() {
            Binary64 { bits: NAN_64 }
        } else if self.infinite() {
            self
        } else if other.infinite() {
            other
        } else {
            let total = self.amount() + other.amount();
            if total == 0 {
                Self::from_parts(self.sign() && other.sign(), 0)
            } else if total > 0 {
                Self::from_parts(false, nearest_64(total as nat, 1))
            } else {
                Self::from_parts(true, nearest_64((-total) as nat, 1))
            }
        }
    }

    /// The product of two numbers.
    pub open spec fn product(self, other: Binary64) -> Binary64 {
        let sign = self.sign() != other.sign();
        if self.nan() || other.nan() {
            Binary64 { bits: NAN_64 }
        } else if self.infinite() || other.infinite() {
            if self.magnitude() == 0 || other.magnitude() == 0 {
                Binary64 { bits: NAN_64 }
            } else {
                Self::from_parts(sign, TOP_64 as nat)
            }
        } else {
            Self::from_parts(sign, nearest_64(self.units() * other.units(), one_64()))
        }
    }

    /// The quotient of two numbers.
    pub open spec fn quotient(self, other: Binary64) -> Binary64 {
        let sign = self.sign() != other.sign();
        if self.nan() || other.nan() {
            Binary64 { bits: NAN_64 }
        } else if self.infinite() && other.infinite() {
            Binary64 { bits: NAN_64 }
        } else if self.infinite() {
            Self::from_parts(sign, TOP_64 as nat)
        } else if other.infinite() {
            Self::from_parts(sign, 0)
        } else if other.magnitude() == 0 {
            if self.magnitude() == 0 {
                Binary64 { bits: NAN_64 }
            } else {
                Self::from_parts(sign, TOP_64 as nat)
            }
        } else {
            Self::from_parts(sign, nearest_64(self.units() * one_64(), other.units()))
        }
    }

    /// The number with the other sign.
    pub open spec fn opposite(self) -> Binary64 {
        Self::from_parts(!self.sign(), self.magnitude())
    }

    /// Whether the number lies between two others, either of which it may equal.
    pub open spec fn within(self, low: Binary64, high: Binary64) -> bool {
        low.at_most(self) && self.at_most(high)
    }

    /// Whether the first of two numbers is smaller; never so beside a not-a-number.
    pub open spec fn below(self, other: Binary64) -> bool {
        !self.nan() && !other.nan() && self.rank() < other.rank()
    }

    /// Whether the first of two numbers is no larger; never so beside a
    /// not-a-number.
    pub open spec fn at_most(self, other: Binary64) -> bool {
        !self.nan() && !other.nan() && self.rank() <= other.rank()
    }

    /// Whether two numbers are equal; a not-a-number equals none, and the two zeros
    /// are equal.
    pub open spec fn equals(self, other: Binary64) -> bool {
        !self.nan() && !other.nan() && self.rank() == other.rank()
    }

    /// The absolute value of a finite number rounded to an integer, halves away
    /// from zero.
    pub open spec fn rounded(self) -> nat {
        (2 * self.units() + one_64()) / (2 * one_64())
    }

    /// The integer part of the absolute value of a finite number.
    pub open spec fn whole(self) -> nat {
        self.units() / one_64()
    }

    /// The 32-bit number nearest to this one.
    pub open spec fn narrowed(self) -> Binary32 {
        if self.nan() {
            Binary32 { bits: NAN_32 }
        } else if self.infinite() {
            Binary32::from_parts(self.sign(), TOP_32 as nat)
        } else {
            Binary32::from_parts(self.sign(), nearest_32(self.units(), one_32_unit()))
        }
    }
}

impl Binary32 {
    /// Whether the sign bit is set.
    pub open spec fn sign(self) -> bool {
        self.bits >= SIGN_32
    }

    /// The pattern without its sign bit.
    pub open spec fn magnitude(self) -> nat {
        if self.sign() {
            (self.bits - SIGN_32) as nat
        } else {
            self.bits as nat
        }
    }

    /// Whether the pattern stands for no number.
    pub open spec fn nan(self) -> bool {
        self.magnitude() > TOP_32
    }

    /// Whether the pattern is an infinity.
    pub open spec fn infinite(self) -> bool {
        self.magnitude() == TOP_32
    }

    /// Whether the pattern is a finite number.
    pub open spec fn finite(self) -> bool {
        self.magnitude() < TOP_32
    }

    /// The absolute value of a finite number, in smallest positive numbers.
    pub open spec fn units(self) -> nat {
        grid(23, self.magnitude())
    }

    /// The place of a number in the order of all numbers.
    pub open spec fn rank(self) -> int {
        if self.sign() {
            -(self.magnitude() as int)
        } else {
            self.magnitude() as int
        }
    }

    /// The number with the given sign and magnitude.
    pub open spec fn from_parts(sign: bool, magnitude: nat) -> Binary32 {
        Binary32 {
            bits: if sign {
                (magnitude + SIGN_32) as u32
            } else {
                magnitude as u32
            },
        }
    }

    /// The 32-bit number nearest to the integer `n`.
    pub open spec fn of(n: nat) -> Binary32 {
        Self::from_parts(false, nearest_32(n * pow2(149), 1))
    }

    /// Whether the first of two numbers is no larger; never so beside a
    /// not-a-number.
    pub open spec fn at_most(self, other: Binary32) -> bool {
        !self.nan() && !other.nan() && self.rank() <= other.rank()
    }

    /// The same number with 64 bits.
    pub open spec fn widened(self) -> Binary64 {
        if self.nan() {
            Binary64 { bits: NAN_64 }
        } else if self.infinite() {
            Binary64::from_parts(self.sign(), TOP_64 as nat)
        } else {
            Binary64::from_parts(self.sign(), nearest_64(self.units() * one_32_unit(), 1))
        }
    }
}

pub(crate) fn power_of_two(k: u32) -> (r: BigNat)
    ensures
        r@ == pow2(k as nat),
        r@ > 0,
{
    let one = BigNat::from_u64(1);
    proof {
        lemma_pow2_pos(k as nat);
        assert(1 * pow2(k as nat) == pow2(k as nat));
    }
    one.shifted(k)
}

pub(crate) fn round_64(num: &BigNat, den: &BigNat) -> (b: u64)
    requires
        den@ > 0,
    ensures
        b == nearest_64(num@, den@),
        b <= TOP_64,
{
    proof {
        vstd::arithmetic::power2::lemma2_to64_rest();
    }
    round_to_grid(52, TOP_64, num, den)
}

fn round_32(num: &BigNat, den: &BigNat) -> (b: u32)
    requires
        den@ > 0,
    ensures
        b == nearest_32(num@, den@),
        b <= TOP_32,
{
    proof {
        vstd::arithmetic::power2::lemma2_to64();
    }
    round_to_grid(23, TOP_32 as u64, num, den) as u32
}

/// No magnitude but zero stands for zero.
proof fn lemma_grid_positive(p: nat, b: nat)
    ensures
        (grid(p, b) == 0) == (b == 0),
{
    lemma_pow2_pos(p);
    if b > 0 {
        lemma_grid_increases(p, (b - 1) as nat);
    }
}

impl Binary64 {
    /// The number with the given bit pattern.
    pub fn from_bits(bits: u64) -> (r: Binary64)
        ensures
            r.bits == bits,
    {
        Binary64 { bits }
    }

    /// The bit pattern of the number.
    pub fn to_bits(self) -> (r: u64)
        ensures
            r == self.bits,
    {
        self.bits
    }

    /// Zero.
    pub fn zero() -> (r: Binary64)
        ensures
            r.bits == 0,
    {
        Binary64 { bits: 0 }
    }

    fn has_sign(self) -> (r: bool)
        ensures
            r == self.sign(),
    {
        self.bits >= SIGN_64
    }

    fn pattern(self) -> (r: u64)
        ensures
            r == self.magnitude(),
            r < SIGN_64,
    {
        if self.bits >= SIGN_64 {
            self.bits - SIGN_64
        } else {
            self.bits
        }
    }

    pub(crate) fn assemble(sign: bool, magnitude: u64) -> (r: Binary64)
        requires
            magnitude < SIGN_64,
        ensures
            r == Binary64::from_parts(sign, magnitude as nat),
            r.sign() == sign,
            r.magnitude() == magnitude,
    {
        if sign {
            Binary64 { bits: magnitude + SIGN_64 }
        } else {
            Binary64 { bits: magnitude }
        }
    }

    /// Whether the pattern stands for no number.
    pub fn is_nan(self) -> (r: bool)
        ensures
            r == self.nan(),
    {
        self.pattern() > TOP_64
    }

    /// Whether the number is finite.
    pub fn is_finite(self) -> (r: bool)
        ensures
            r == self.finite(),
    {
        self.pattern() < TOP_64
    }

    /// Whether the number is zero, of either sign.
    pub fn is_zero(self) -> (r: bool)
        ensures
            r == (self.magnitude() == 0),
    {
        self.pattern() == 0
    }

    fn exact(self) -> (r: BigNat)
        requires
            !self.nan(),
        ensures
            r@ == self.units(),
    {
        proof {
            vstd::arithmetic::power2::lemma2_to64_rest();
        }
        grid_point(52, self.pattern())
    }

    /// The number nearest to `num / den`.
    pub fn ratio(num: u64, den: u64) -> (r: Binary64)
        requires
            den > 0,
        ensures
            r == Binary64::ratio_of(num as nat, den as nat),
    {
        let b: u64 = round_64(&BigNat::from_u64(num).shifted(1074), &BigNat::from_u64(den));
        Binary64::assemble(false, b)
    }

    /// The number nearest to `n`.
    pub fn from_u64(n: u64) -> (r: Binary64)
        ensures
            r == Binary64::of(n as nat),
    {
        Binary64::ratio(n, 1)
    }

    /// The sum of two numbers.
    pub fn plus(self, other: Binary64) -> (r: Binary64)
        ensures
            r == self.sum(other),
    {
        if self.is_nan() || other.is_nan() {
            return Binary64 { bits: NAN_64 };
        }
        if !self.is_finite() {
            if !other.is_finite() && self.has_sign() != other.has_sign() {
                return Binary64 { bits: NAN_64 };
            }
            return self;
        }
        if !other.is_finite() {
            return other;
        }
        let a = self.exact();
        let b = other.exact();
        let one = BigNat::from_u64(1);
        if self.has_sign() == other.has_sign() {
            let total = a.plus(&b);
            if total.is_zero() {
                return Binary64::assemble(self.has_sign(), 0);
            }
            return Binary64::assemble(self.has_sign(), round_64(&total, &one));
        }
        if a.less(&b) {
            return Binary64::assemble(other.has_sign(), round_64(&b.minus(&a), &one));
        }
        if b.less(&a) {
            return Binary64::assemble(self.has_sign(), round_64(&a.minus(&b), &one));
        }
        Binary64::assemble(false, 0)
    }

    /// The product of two numbers.
    pub fn times(self, other: Binary64) -> (r: Binary64)
        ensures
            r == self.product(other),
    {
        let sign: bool = self.has_sign() != other.has_sign();
        if self.is_nan() || other.is_nan() {
            return Binary64 { bits: NAN_64 };
        }
        if !self.is_finite() || !other.is_finite() {
            if self.is_zero() || other.is_zero() {
                return Binary64 { bits: NAN_64 };
            }
            return Binary64::assemble(sign, TOP_64);
        }
        let num = self.exact().times(&other.exact());
        Binary64::assemble(sign, round_64(&num, &power_of_two(1074)))
    }

    /// The quotient of two numbers.
    pub fn over(self, other: Binary64) -> (r: Binary64)
        ensures
            r == self.quotient(other),
    {
        let sign: bool = self.has_sign() != other.has_sign();
        if self.is_nan() || other.is_nan() {
            return Binary64 { bits: NAN_64 };
        }
        if !self.is_finite() {
            if !other.is_finite() {
                return Binary64 { bits: NAN_64 };
            }
            return Binary64::assemble(sign, TOP_64);
        }
        if !other.is_finite() {
            return Binary64::assemble(sign, 0);
        }
        if other.is_zero() {
            if self.is_zero() {
                return Binary64 { bits: NAN_64 };
            }
            return Binary64::assemble(sign, TOP_64);
        }
        proof {
            lemma_grid_positive(52, other.magnitude());
        }
        let num = self.exact().shifted(1074);
        Binary64::assemble(sign, round_64(&num, &other.exact()))
    }

    /// Whether this number is smaller than `other`.
    pub fn less(self, other: Binary64) -> (r: bool)
        ensures
            r == self.below(other),
    {
        if self.is_nan() || other.is_nan() {
            return false;
        }
        let a: u64 = self.pattern();
        let b: u64 = other.pattern();
        if self.has_sign() {
            if other.has_sign() {
                b < a
            } else {
                a > 0 || b > 0
            }
        } else if other.has_sign() {
            false
        } else {
            a < b
        }
    }

    /// Whether this number is no larger than `other`.
    pub fn up_to(self, other: Binary64) -> (r: bool)
        ensures
            r == self.at_most(other),
    {
        !self.is_nan() && !other.is_nan() && !other.less(self)
    }

    /// Whether this number equals `other`.
    pub fn equal(self, other: Binary64) -> (r: bool)
        ensures
            r == self.equals(other),
    {
        self.up_to(other) && other.up_to(self)
    }

    /// Whether the number lies between two others, either of which it may equal.
    pub fn is_within(self, low: Binary64, high: Binary64) -> (r: bool)
        ensures
            r == self.within(low, high),
    {
        low.up_to(self) && self.up_to(high)
    }

    /// The number with the other sign.
    pub fn negate(self) -> (r: Binary64)
        ensures
            r == self.opposite(),
    {
        Binary64::assemble(!self.has_sign(), self.pattern())
    }

    /// Whether the number is finite and not negative; a negative zero is not
    /// negative.
    pub fn is_nonnegative(self) -> (r: bool)
        ensures
            r == (self.finite() && self.rank() >= 0),
    {
        self.is_finite() && (!self.has_sign() || self.is_zero())
    }

    /// The 32-bit number nearest to this one.
    pub fn narrow(self) -> (r: Binary32)
        ensures
            r == self.narrowed(),
    {
        if self.is_nan() {
            return Binary32 { bits: NAN_32 };
        }
        if !self.is_finite() {
            return Binary32::assemble(self.has_sign(), TOP_32);
        }
        let b: u32 = round_32(&self.exact(), &power_of_two(925));
        Binary32::assemble(self.has_sign(), b)
    }
}

impl Binary32 {
    /// The number with the given bit pattern.
    pub fn from_bits(bits: u32) -> (r: Binary32)
        ensures
            r.bits == bits,
    {
        Binary32 { bits }
    }

    /// The bit pattern of the number.
    pub fn to_bits(self) -> (r: u32)
        ensures
            r == self.bits,
    {
        self.bits
    }

    fn has_sign(self) -> (r: bool)
        ensures
            r == self.sign(),
    {
        self.bits >= SIGN_32
    }

    fn pattern(self) -> (r: u32)
        ensures
            r == self.magnitude(),
            r < SIGN_32,
    {
        if self.bits >= SIGN_32 {
            self.bits - SIGN_32
        } else {
            self.bits
        }
    }

    fn assemble(sign: bool, magnitude: u32) -> (r: Binary32)
        requires
            magnitude < SIGN_32,
        ensures
            r == Binary32::from_parts(sign, magnitude as nat),
            r.sign() == sign,
            r.magnitude() == magnitude,
    {
        if sign {
            Binary32 { bits: magnitude + SIGN_32 }
        } else {
            Binary32 { bits: magnitude }
        }
    }

    /// Whether the pattern stands for no number.
    pub fn is_nan(self) -> (r: bool)
        ensures
            r == self.nan(),
    {
        self.pattern() > TOP_32
    }

    /// Whether the number is finite.
    pub fn is_finite(self) -> (r: bool)
        ensures
            r == self.finite(),
    {
        self.pattern() < TOP_32
    }

    /// The 32-bit number nearest to `n`.
    pub fn from_u32(n: u32) -> (r: Binary32)
        ensures
            r == Binary32::of(n as nat),
    {
        let b: u32 = round_32(&BigNat::from_u64(n as u64).shifted(149), &BigNat::from_u64(1));
        Binary32::assemble(false, b)
    }

    /// Whether the number is finite and not negative; a negative zero is not
    /// negative.
    pub fn is_nonnegative(self) -> (r: bool)
        ensures
            r == (self.finite() && self.rank() >= 0),
    {
        self.is_finite() && (!self.has_sign() || self.pattern() == 0)
    }

    /// Whether this number is no larger than `other`.
    pub fn up_to(self, other: Binary32) -> (r: bool)
        ensures
            r == self.at_most(other),
    {
        if self.is_nan() || other.is_nan() {
            return false;
        }
        let a: u32 = self.pattern();
        let b: u32 = other.pattern();
        if self.has_sign() {
            if other.has_sign() {
                b <= a
            } else {
                true
            }
        } else if other.has_sign() {
            a == 0 && b == 0
        } else {
            a <= b
        }
    }

    /// The same number with 64 bits.
    pub fn widen(self) -> (r: Binary64)
        ensures
            r == self.widened(),
    {
        if self.is_nan() {
            return Binary64 { bits: NAN_64 };
        }
        if !self.is_finite() {
            return Binary64::assemble(self.has_sign(), TOP_64);
        }
        proof {
            vstd::arithmetic::power2::lemma2_to64();
        }
        let num = grid_point(23, self.pattern() as u64).shifted(925);
        Binary64::assemble(self.has_sign(), round_64(&num, &BigNat::from_u64(1)))
    }
}

/// A normal number is its significand, scaled by its exponent.
proof fn lemma_normal_units(x: Binary64)
    requires
        x.finite(),
        x.magnitude() >= 0x10_0000_0000_0000,
    ensures
        ({
            let e = (x.magnitude() / 0x10_0000_0000_0000) as nat;
            let m = 0x10_0000_0000_0000 + x.magnitude() % 0x10_0000_0000_0000;
            1 <= e <= 2046 && x.units() == m * pow2((e - 1) as nat)
        }),
{
    vstd::arithmetic::power2::lemma2_to64_rest();
}

proof fn lemma_rounded_small(x: Binary64)
    requires
        x.finite(),
        x.units() < pow2(1073),
    ensures
        x.rounded() == 0,
        x.whole() == 0,
{
    vstd::arithmetic::power2::lemma_pow2_unfold(1074);
    let u = x.units();
    let one = one_64();
    assert((2 * u + one) / (2 * one) == 0) by (nonlinear_arith)
        requires
            2 * u < one,
    ;
    assert(u / one == 0) by (nonlinear_arith)
        requires
            u < one,
    ;
}

/// Below one unit in the last place of fifty-three bits, rounding drops `s` bits.
proof fn lemma_rounded_shift(x: Binary64, m: nat, e: nat, s: nat)
    requires
        1 <= e,
        e + s == 1075,
        x.units() == m * pow2((e - 1) as nat),
    ensures
        x.rounded() == (2 * m + pow2(s)) / (2 * pow2(s)),
        x.whole() == m / pow2(s),
{
    let f = pow2((e - 1) as nat);
    let t = pow2(s);
    lemma_pow2_adds((e - 1) as nat, s);
    lemma_pow2_pos((e - 1) as nat);
    lemma_pow2_pos(s);
    assert(one_64() == f * t);
    let u = x.units();
    assert(2 * u + one_64() == f * (2 * m + t)) by (nonlinear_arith)
        requires
            u == m * f,
            one_64() == f * t,
    ;
    assert(2 * one_64() == f * (2 * t)) by (nonlinear_arith)
        requires
            one_64() == f * t,
    ;
    vstd::arithmetic::div_mod::lemma_div_multiples_vanish_quotient(
        f as int,
        (2 * m + t) as int,
        (2 * t) as int,
    );
    assert(u == f * m) by (nonlinear_arith)
        requires
            u == m * f,
    ;
    vstd::arithmetic::div_mod::lemma_div_multiples_vanish_quotient(f as int, m as int, t as int);
}

/// From the last place of fifty-three bits on, numbers are integers.
proof fn lemma_rounded_integer(x: Binary64, m: nat, e: nat)
    requires
        e >= 1075,
        x.units() == m * pow2((e - 1) as nat),
    ensures
        x.rounded() == m * pow2((e - 1075) as nat),
        x.whole() == m * pow2((e - 1075) as nat),
{
    let k = (e - 1075) as nat;
    let n = m * pow2(k);
    let one = one_64();
    lemma_pow2_adds(k, 1074);
    lemma_pow2_pos(1074);
    assert(x.units() == n * one) by (nonlinear_arith)
        requires
            x.units() == m * pow2((e - 1) as nat),
            pow2((e - 1) as nat) == pow2(k) * one,
            n == m * pow2(k),
    ;
    let u = x.units();
    assert((2 * u + one) / (2 * one) == n) by (nonlinear_arith)
        requires
            u == n * one,
            one > 0,
    {
        vstd::arithmetic::div_mod::lemma_fundamental_div_mod_converse(
            (2 * u + one) as int,
            (2 * one) as int,
            n as int,
            one as int,
        );
    }
    vstd::arithmetic::div_mod::lemma_fundamental_div_mod_converse(
        u as int,
        one as int,
        n as int,
        0,
    );
}

impl Binary64 {
    /// The exponent and significand of a finite number, or nothing where the
    /// number is below one half.
    fn significand(self) -> (r: Option<(u64, u64)>)
        requires
            self.finite(),
        ensures
            match r {
                Some((e, m)) => 1022 <= e <= 2046 && 0x10_0000_0000_0000 <= m < 0x20_0000_0000_0000
                    && self.units() == m * pow2((e - 1) as nat),
                None => self.rounded() == 0 && self.whole() == 0,
            },
    {
        let b: u64 = self.pattern();
        let e: u64 = b / 0x10_0000_0000_0000;
        let m: u64 = 0x10_0000_0000_0000 + b % 0x10_0000_0000_0000;
        proof {
            vstd::arithmetic::power2::lemma2_to64_rest();
        }
        if e == 0 {
            proof {
                vstd::arithmetic::power2::lemma_pow2_strictly_increases(52, 1073);
                lemma_rounded_small(self);
            }
            return None;
        }
        proof {
            lemma_normal_units(self);
        }
        if e < 1022 {
            proof {
                lemma_pow2_adds(53, 1020);
                if e < 1021 {
                    vstd::arithmetic::power2::lemma_pow2_strictly_increases((e - 1) as nat, 1020);
                }
                let f = pow2((e - 1) as nat);
                lemma_pow2_pos((e - 1) as nat);
                assert(m * f < pow2(53) * pow2(1020)) by (nonlinear_arith)
                    requires
                        m < pow2(53),
                        f <= pow2(1020),
                        f > 0,
                ;
                lemma_rounded_small(self);
            }
            return None;
        }
        Some((e, m))
    }

    /// The absolute value rounded to an integer, halves away from zero, where it
    /// fits.
    pub fn round_u64(self) -> (r: Option<u64>)
        requires
            self.finite(),
        ensures
            match r {
                Some(n) => n == self.rounded(),
                None => self.rounded() > u64::MAX,
            },
    {
        match self.significand() {
            None => Some(0),
            Some((e, m)) => {
                if e >= 1075 {
                    proof {
                        lemma_rounded_integer(self, m as nat, e as nat);
                    }
                    Self::scaled(m, e - 1075)
                } else {
                    let s: u64 = 1075 - e;
                    let t: u64 = 1u64 << s;
                    proof {
                        Self::lemma_shift(s);
                        lemma_rounded_shift(self, m as nat, e as nat, s as nat);
                    }
                    Some((2 * m + t) / (2 * t))
                }
            },
        }
    }

    /// The integer part of the absolute value, where it fits.
    pub fn whole_u64(self) -> (r: Option<u64>)
        requires
            self.finite(),
        ensures
            match r {
                Some(n) => n == self.whole(),
                None => self.whole() > u64::MAX,
            },
    {
        match self.significand() {
            None => Some(0),
            Some((e, m)) => {
                if e >= 1075 {
                    proof {
                        lemma_rounded_integer(self, m as nat, e as nat);
                    }
                    Self::scaled(m, e - 1075)
                } else {
                    let s: u64 = 1075 - e;
                    let t: u64 = 1u64 << s;
                    proof {
                        Self::lemma_shift(s);
                        lemma_rounded_shift(self, m as nat, e as nat, s as nat);
                    }
                    Some(m / t)
                }
            },
        }
    }

    proof fn lemma_shift(s: u64)
        requires
            s <= 60,
        ensures
            1u64 << s == pow2(s as nat),
            0 < pow2(s as nat) <= 0x1000_0000_0000_0000,
    {
        vstd::arithmetic::power2::lemma2_to64();
        vstd::arithmetic::power2::lemma2_to64_rest();
        if s < 60 {
            vstd::arithmetic::power2::lemma_pow2_strictly_increases(s as nat, 60);
        }
        vstd::bits::lemma_u64_shl_is_mul(1, s);
        lemma_pow2_pos(s as nat);
    }

    fn scaled(m: u64, k: u64) -> (r: Option<u64>)
        requires
            0x10_0000_0000_0000 <= m < 0x20_0000_0000_0000,
        ensures
            match r {
                Some(n) => n == m * pow2(k as nat),
                None => m * pow2(k as nat) > u64::MAX,
            },
    {
        proof {
            vstd::arithmetic::power2::lemma2_to64();
        }
        if k < 12 {
            let t: u64 = 1u64 << k;
            proof {
                Self::lemma_shift(k);
                if k < 11 {
                    vstd::arithmetic::power2::lemma_pow2_strictly_increases(k as nat, 11);
                }
                assert(m * t <= 0x1f_ffff_ffff_ffff * 2048) by (nonlinear_arith)
                    requires
                        m <= 0x1f_ffff_ffff_ffff,
                        t <= 2048,
                ;
            }
            Some(m * t)
        } else {
            proof {
                if k > 12 {
                    vstd::arithmetic::power2::lemma_pow2_strictly_increases(12, k as nat);
                }
                let f = pow2(k as nat);
                assert(m * f >= 0x10_0000_0000_0000 * 4096) by (nonlinear_arith)
                    requires
                        m >= 0x10_0000_0000_0000,
                        f >= 4096,
                ;
            }
            None
        }
    }
}

proof fn lemma_grid_ordered(p: nat, a: nat, b: nat)
    requires
        a <= b,
    ensures
        grid(p, a) <= grid(p, b),
    decreases b,
{
    if a < b {
        lemma_grid_ordered(p, a, (b - 1) as nat);
        lemma_grid_increases(p, (b - 1) as nat);
    }
}

/// Rounding to integers keeps the order of numbers that are not negative.
pub proof fn lemma_rounded_ordered(x: Binary64, y: Binary64)
    requires
        x.finite(),
        y.finite(),
        0 <= x.rank() <= y.rank(),
    ensures
        x.rounded() <= y.rounded(),
        x.whole() <= y.whole(),
{
    lemma_grid_positive(52, 0);
    lemma_grid_ordered(52, x.magnitude(), y.magnitude());
    lemma_pow2_pos(1074);
    vstd::arithmetic::div_mod::lemma_div_is_ordered(
        (2 * x.units() + one_64()) as int,
        (2 * y.units() + one_64()) as int,
        (2 * one_64()) as int,
    );
    vstd::arithmetic::div_mod::lemma_div_is_ordered(
        x.units() as int,
        y.units() as int,
        one_64() as int,
    );
}

/// A point of the grid rounds to itself.
pub proof fn lemma_exact_is_nearest(p: nat, top: nat, b: nat)
    requires
        b < top,
    ensures
        nearest(p, top, grid(p, b), 1) == b,
{
    let g = grid(p, b);
    lemma_grid_increases(p, b);
    if b > 0 {
        lemma_grid_increases(p, (b - 1) as nat);
    }
    assert(reaches(p, g, 1, b));
    assert(!reaches(p, g, 1, b + 1));
    lemma_nearest_unique(p, top, g, 1, b);
}

/// An integer below `2^53` is a point of the grid.
proof fn lemma_integer_on_grid(n: nat, k: nat)
    requires
        k <= 52,
        pow2(k) <= n < pow2(k + 1),
    ensures
        ({
            let b = (1023 + k) * pow2(52) + (n - pow2(k)) * pow2((52 - k) as nat);
            b >= 0 && grid(52, b as nat) == n * one_64()
        }),
{
    let f = pow2((52 - k) as nat);
    let h = pow2(52);
    let m = (n - pow2(k)) as nat;
    let e = (1023 + k) as nat;
    lemma_pow2_pos((52 - k) as nat);
    lemma_pow2_pos(52);
    lemma_pow2_adds(k, (52 - k) as nat);
    vstd::arithmetic::power2::lemma_pow2_unfold(k + 1);
    let r = m * f;
    assert(r < h) by (nonlinear_arith)
        requires
            r == m * f,
            m < pow2(k),
            h == pow2(k) * f,
            f > 0,
    ;
    let b = e * h + r;
    assert(b == h * e + r) by (nonlinear_arith)
        requires
            b == e * h + r,
    ;
    vstd::arithmetic::div_mod::lemma_fundamental_div_mod_converse(
        b as int,
        h as int,
        e as int,
        r as int,
    );
    assert(b >= h) by (nonlinear_arith)
        requires
            b == h * e + r,
            e >= 1,
    ;
    assert(h + r == n * f) by (nonlinear_arith)
        requires
            r == m * f,
            m == n - pow2(k),
            h == pow2(k) * f,
    ;
    lemma_pow2_adds((52 - k) as nat, (e - 1) as nat);
    assert((52 - k) + (e - 1) == 1074);
    assert((h + r) * pow2((e - 1) as nat) == n * (f * pow2((e - 1) as nat))) by (nonlinear_arith)
        requires
            h + r == n * f,
    ;
}

proof fn lemma_binary_digits(n: nat, limit: nat) -> (k: nat)
    requires
        1 <= n < pow2(limit),
        limit > 0,
    ensures
        k < limit,
        pow2(k) <= n < pow2(k + 1),
    decreases limit,
{
    if limit == 1 {
        vstd::arithmetic::power2::lemma2_to64();
        0
    } else if n < pow2((limit - 1) as nat) {
        lemma_binary_digits(n, (limit - 1) as nat)
    } else {
        (limit - 1) as nat
    }
}

/// An integer below `2^53` is held exactly.
pub proof fn lemma_integer_is_exact(n: nat)
    requires
        n < pow2(53),
    ensures
        Binary64::of(n).finite(),
        !Binary64::of(n).sign(),
        Binary64::of(n).units() == n * one_64(),
{
    vstd::arithmetic::power2::lemma2_to64_rest();
    if n == 0 {
        assert(0 * one_64() == 0) by (nonlinear_arith);
        assert(grid(52, 0) == 0);
        lemma_exact_is_nearest(52, TOP_64 as nat, 0);
    } else {
        let k = lemma_binary_digits(n, 53);
        lemma_integer_on_grid(n, k);
        let b = ((1023 + k) * pow2(52) + (n - pow2(k)) * pow2((52 - k) as nat)) as nat;
        lemma_pow2_adds(k, (52 - k) as nat);
        lemma_pow2_pos((52 - k) as nat);
        vstd::arithmetic::power2::lemma_pow2_unfold(k + 1);
        let m = (n - pow2(k)) as nat;
        let f = pow2((52 - k) as nat);
        assert(m * f < pow2(52)) by (nonlinear_arith)
            requires
                m < pow2(k),
                pow2(52) == pow2(k) * f,
                f > 0,
        ;
        assert(b < TOP_64) by (nonlinear_arith)
            requires
                b == (1023 + k) * 0x10_0000_0000_0000 + m * f,
                m * f < 0x10_0000_0000_0000,
                k <= 52,
        ;
        lemma_exact_is_nearest(52, TOP_64 as nat, b);
    }
}

/// An integer below `2^53` rounds to itself.
pub proof fn lemma_integer_rounds_to_itself(n: nat)
    requires
        n < 0x20_0000_0000_0000,
    ensures
        Binary64::of(n).finite(),
        Binary64::of(n).rounded() == n,
        Binary64::of(n).whole() == n,
{
    vstd::arithmetic::power2::lemma2_to64_rest();
    lemma_integer_is_exact(n);
    let u = Binary64::of(n).units();
    let one = one_64();
    lemma_pow2_pos(1074);
    assert(2 * u + one == (2 * one) * n + one) by (nonlinear_arith)
        requires
            u == n * one,
    ;
    vstd::arithmetic::div_mod::lemma_fundamental_div_mod_converse(
        (2 * u + one) as int,
        (2 * one) as int,
        n as int,
        one as int,
    );
    assert(u == one * n) by (nonlinear_arith)
        requires
            u == n * one,
    ;
    vstd::arithmetic::div_mod::lemma_fundamental_div_mod_converse(
        u as int,
        one as int,
        n as int,
        0,
    );
}

// ---------------------------------------------------------------------------
// Order
// ---------------------------------------------------------------------------
/// Rounding has a result, at or above any magnitude that it reaches.
proof fn lemma_nearest_exists(p: nat, top: nat, num: nat, den: nat, b: nat) -> (r: nat)
    requires
        b <= top,
        reaches(p, num, den, b),
    ensures
        b <= r,
        is_nearest(p, top, num, den, r),
    decreases top - b,
{
    if b < top && reaches(p, num, den, b + 1) {
        lemma_nearest_exists(p, top, num, den, b + 1)
    } else {
        b
    }
}

/// A number at or above a point of the grid rounds to that point or above it.
proof fn lemma_nearest_at_least(p: nat, top: nat, num: nat, den: nat, m: nat)
    requires
        den > 0,
        m <= top,
        grid(p, m) * den <= num,
    ensures
        m <= nearest(p, top, num, den) <= top,
        is_nearest(p, top, num, den, nearest(p, top, num, den)),
{
    if m > 0 {
        lemma_grid_increases(p, (m - 1) as nat);
        let low = grid(p, (m - 1) as nat);
        let high = grid(p, m);
        assert((low + high) * den < 2 * num) by (nonlinear_arith)
            requires
                low < high,
                high * den <= num,
                den > 0,
        ;
    }
    let r = lemma_nearest_exists(p, top, num, den, m);
    lemma_nearest_unique(p, top, num, den, r);
}

/// Rounding keeps the order of numbers.
proof fn lemma_nearest_ordered(p: nat, top: nat, num: nat, more: nat, den: nat)
    requires
        den > 0,
        num <= more,
    ensures
        nearest(p, top, num, den) <= nearest(p, top, more, den),
{
    let r = lemma_nearest_exists(p, top, num, den, 0);
    lemma_nearest_unique(p, top, num, den, r);
    let t = lemma_nearest_exists(p, top, more, den, r);
    lemma_nearest_unique(p, top, more, den, t);
}

/// A number at or below a point of the grid rounds to that point or below it.
proof fn lemma_nearest_at_most(p: nat, top: nat, num: nat, den: nat, m: nat)
    requires
        den > 0,
        m < top,
        num <= grid(p, m) * den,
    ensures
        nearest(p, top, num, den) <= m,
{
    let exact = grid(p, m) * den;
    lemma_nearest_ordered(p, top, num, exact, den);
    lemma_grid_increases(p, m);
    let g = grid(p, m);
    let h = grid(p, m + 1);
    assert((g + h) * den > 2 * exact) by (nonlinear_arith)
        requires
            g < h,
            exact == g * den,
            den > 0,
    ;
    if m > 0 {
        lemma_grid_increases(p, (m - 1) as nat);
        let low = grid(p, (m - 1) as nat);
        assert((low + g) * den < 2 * exact) by (nonlinear_arith)
            requires
                low < g,
                exact == g * den,
                den > 0,
        ;
    }
    lemma_nearest_unique(p, top, exact, den, m);
}

proof fn lemma_nonnegative_amount(x: Binary64)
    requires
        x.nonnegative(),
        x.finite(),
    ensures
        x.amount() == x.units(),
        x.sign() ==> x.units() == 0,
        (x.units() == 0) == (x.magnitude() == 0),
{
    lemma_grid_positive(52, x.magnitude());
}

/// Adding what is not negative never makes a number smaller.
pub proof fn lemma_sum_grows(x: Binary64, y: Binary64)
    requires
        x.nonnegative(),
        y.nonnegative(),
    ensures
        x.sum(y).nonnegative(),
        x.at_most(x.sum(y)),
        y.at_most(x.sum(y)),
{
    if x.finite() && y.finite() {
        lemma_nonnegative_amount(x);
        lemma_nonnegative_amount(y);
        let total = x.units() + y.units();
        if total > 0 {
            lemma_nearest_at_least(52, TOP_64 as nat, total, 1, x.magnitude());
            lemma_nearest_at_least(52, TOP_64 as nat, total, 1, y.magnitude());
        }
    }
}

/// Adding the same to two numbers keeps their order.
pub proof fn lemma_sum_ordered(x: Binary64, y: Binary64, d: Binary64)
    requires
        x.nonnegative(),
        y.nonnegative(),
        d.nonnegative(),
        x.at_most(y),
    ensures
        x.sum(d).at_most(y.sum(d)),
{
    lemma_sum_grows(x, d);
    lemma_sum_grows(y, d);
    if y.finite() && d.finite() {
        lemma_nonnegative_amount(x);
        lemma_nonnegative_amount(y);
        lemma_nonnegative_amount(d);
        lemma_grid_ordered(52, x.magnitude(), y.magnitude());
        let low = x.units() + d.units();
        let high = y.units() + d.units();
        lemma_grid_positive(52, 0);
        lemma_nearest_at_least(52, TOP_64 as nat, low, 1, 0);
        lemma_nearest_at_least(52, TOP_64 as nat, high, 1, 0);
        lemma_nearest_ordered(52, TOP_64 as nat, low, high, 1);
    }
}

/// A product of numbers that are not negative is not negative.
pub proof fn lemma_product_nonnegative(x: Binary64, y: Binary64)
    requires
        x.nonnegative(),
        y.nonnegative(),
        x.infinite() ==> y.magnitude() > 0,
        y.infinite() ==> x.magnitude() > 0,
    ensures
        x.product(y).nonnegative(),
{
    if x.finite() && y.finite() {
        lemma_nonnegative_amount(x);
        lemma_nonnegative_amount(y);
        lemma_pow2_pos(1074);
        let num = x.units() * y.units();
        assert(x.units() == 0 || y.units() == 0 ==> num == 0) by (nonlinear_arith)
            requires
                num == x.units() * y.units(),
        ;
        lemma_grid_positive(52, 0);
        assert(grid(52, 0) * one_64() == 0) by (nonlinear_arith)
            requires
                grid(52, 0) == 0,
        ;
        lemma_nearest_at_least(52, TOP_64 as nat, num, one_64(), 0);
        if num == 0 {
            lemma_nearest_at_most(52, TOP_64 as nat, num, one_64(), 0);
        }
    }
}

/// A number that is not negative stays so when it is divided by a positive one.
pub proof fn lemma_quotient_nonnegative(x: Binary64, y: Binary64)
    requires
        x.nonnegative(),
        y.finite(),
        !y.sign(),
        y.magnitude() > 0,
    ensures
        x.quotient(y).nonnegative(),
{
    if x.finite() {
        lemma_nonnegative_amount(x);
        lemma_nonnegative_amount(y);
        let num = x.units() * one_64();
        assert(x.units() == 0 ==> num == 0) by (nonlinear_arith)
            requires
                num == x.units() * one_64(),
        ;
        lemma_grid_positive(52, 0);
        assert(grid(52, 0) * y.units() == 0) by (nonlinear_arith)
            requires
                grid(52, 0) == 0,
        ;
        lemma_nearest_at_least(52, TOP_64 as nat, num, y.units(), 0);
        if num == 0 {
            lemma_nearest_at_most(52, TOP_64 as nat, num, y.units(), 0);
        }
    }
}

/// A positive integer below `2^53` is held as a positive number.
pub proof fn lemma_integer_is_positive(n: nat)
    requires
        0 < n < 0x20_0000_0000_0000,
    ensures
        Binary64::of(n).finite(),
        !Binary64::of(n).sign(),
        Binary64::of(n).magnitude() > 0,
        Binary64::of(n).nonnegative(),
{
    vstd::arithmetic::power2::lemma2_to64_rest();
    lemma_integer_is_exact(n);
    lemma_pow2_pos(1074);
    assert(n * one_64() > 0) by (nonlinear_arith)
        requires
            n > 0,
            one_64() > 0,
    ;
}

/// A proper fraction is at most one, and positive where its numerator is.
proof fn lemma_fraction(part: nat, parts: nat)
    requires
        part < parts < 0x20_0000_0000_0000,
    ensures
        ({
            let q = Binary64::of(part).quotient(Binary64::of(parts));
            &&& q.finite()
            &&& q.nonnegative()
            &&& q.units() <= one_64()
            &&& part > 0 ==> q.magnitude() > 0
        }),
{
    vstd::arithmetic::power2::lemma2_to64_rest();
    let one = one_64();
    let x = Binary64::of(part);
    let y = Binary64::of(parts);
    let unit = Binary64::of(1);
    lemma_integer_is_exact(part);
    lemma_integer_is_positive(parts);
    lemma_integer_is_exact(parts);
    lemma_integer_is_positive(1);
    lemma_integer_is_exact(1);
    lemma_quotient_nonnegative(x, y);
    let num = x.units() * one;
    let den = y.units();
    lemma_pow2_pos(1074);
    assert(den > 0 && num <= one * den) by (nonlinear_arith)
        requires
            num == (part * one) * one,
            den == parts * one,
            part < parts,
            one > 0,
    ;
    lemma_nearest_at_most(52, TOP_64 as nat, num, den, unit.magnitude());
    let q = x.quotient(y);
    lemma_grid_ordered(52, q.magnitude(), unit.magnitude());
    if part > 0 {
        vstd::arithmetic::power2::lemma_pow2_strictly_increases(53, 1074);
        assert(1 * den <= num) by (nonlinear_arith)
            requires
                num == (part * one) * one,
                den == parts * one,
                part >= 1,
                parts <= one,
        ;
        assert(grid(52, 1) == 1);
        lemma_nearest_at_least(52, TOP_64 as nat, num, den, 1);
    }
}

/// A positive mixed number is held as a positive, finite number.
pub proof fn lemma_mixed_is_positive(whole: nat, part: nat, parts: nat)
    requires
        part < parts < 0x20_0000_0000_0000,
        whole + 1 < 0x20_0000_0000_0000,
        whole > 0 || part > 0,
    ensures
        ({
            let r = Binary64::of(whole).sum(Binary64::of(part).quotient(Binary64::of(parts)));
            &&& r.finite()
            &&& r.nonnegative()
            &&& r.magnitude() > 0
            &&& r.units() <= (whole + 1) * one_64()
        }),
{
    vstd::arithmetic::power2::lemma2_to64_rest();
    let one = one_64();
    let x = Binary64::of(whole);
    let q = Binary64::of(part).quotient(Binary64::of(parts));
    let z = Binary64::of(whole + 1);
    lemma_fraction(part, parts);
    lemma_integer_is_exact(whole);
    lemma_integer_is_positive(whole + 1);
    lemma_integer_is_exact(whole + 1);
    lemma_nonnegative_amount(x);
    lemma_nonnegative_amount(q);
    lemma_sum_grows(x, q);
    if whole > 0 {
        lemma_integer_is_positive(whole);
    }
    let total = x.units() + q.units();
    assert((whole + 1) * one == whole * one + one) by (nonlinear_arith);
    lemma_nearest_at_most(52, TOP_64 as nat, total, 1, z.magnitude());
    lemma_grid_ordered(52, x.sum(q).magnitude(), z.magnitude());
}

// ---------------------------------------------------------------------------
// Bounds
// ---------------------------------------------------------------------------
/// The magnitudes that are whole multiples of `2^p` are the powers of two.
proof fn lemma_power_on_any_grid(p: nat, e: nat)
    requires
        e >= 1,
    ensures
        grid(p, e * pow2(p)) == pow2((p + e - 1) as nat),
{
    let h = pow2(p);
    let b = e * h;
    lemma_pow2_pos(p);
    assert(b == h * e && b >= h) by (nonlinear_arith)
        requires
            b == e * h,
            e >= 1,
            h > 0,
    ;
    vstd::arithmetic::div_mod::lemma_fundamental_div_mod_converse(b as int, h as int, e as int, 0);
    lemma_pow2_adds(p, (e - 1) as nat);
}

/// The 64-bit magnitudes that are whole multiples of `2^52` are the powers of two.
proof fn lemma_power_on_grid(e: nat)
    requires
        1 <= e < 2047,
    ensures
        grid(52, e * pow2(52)) == pow2((51 + e) as nat),
        e * pow2(52) < TOP_64,
{
    vstd::arithmetic::power2::lemma2_to64_rest();
    lemma_power_on_any_grid(52, e);
    assert(e * 0x10_0000_0000_0000 < TOP_64) by (nonlinear_arith)
        requires
            e <= 2046,
    ;
}

/// A number that rounds from no more than a power of two is no more than it.
proof fn lemma_nearest_within(num: nat, den: nat, k: nat)
    requires
        den > 0,
        52 <= k < 2098,
        num <= pow2(k) * den,
    ensures
        nearest_64(num, den) < TOP_64,
        grid(52, nearest_64(num, den)) <= pow2(k),
{
    let e = (k - 51) as nat;
    lemma_power_on_grid(e);
    lemma_nearest_at_most(52, TOP_64 as nat, num, den, e * pow2(52));
    lemma_grid_ordered(52, nearest_64(num, den), e * pow2(52));
}

/// The sum of two bounded numbers is bounded.
pub proof fn lemma_sum_within(x: Binary64, y: Binary64, k: nat)
    requires
        x.bounded(k),
        y.bounded(k),
        52 <= k < 2097,
    ensures
        x.sum(y).bounded(k + 1),
{
    lemma_nonnegative_amount(x);
    lemma_nonnegative_amount(y);
    lemma_sum_grows(x, y);
    vstd::arithmetic::power2::lemma_pow2_unfold(k + 1);
    lemma_pow2_pos(k + 1);
    lemma_grid_positive(52, 0);
    let total = x.units() + y.units();
    if total > 0 {
        lemma_nearest_within(total, 1, k + 1);
    }
}

/// The product of two bounded numbers is bounded.
pub proof fn lemma_product_within(x: Binary64, y: Binary64, j: nat, k: nat)
    requires
        x.bounded(j),
        y.bounded(k),
        1126 <= j + k < 3172,
    ensures
        x.product(y).bounded((j + k - 1074) as nat),
{
    lemma_product_nonnegative(x, y);
    lemma_pow2_pos(1074);
    lemma_pow2_adds(j, k);
    let rest = (j + k - 1074) as nat;
    lemma_pow2_adds(rest, 1074);
    let num = x.units() * y.units();
    assert(num <= pow2(j) * pow2(k)) by (nonlinear_arith)
        requires
            num == x.units() * y.units(),
            x.units() <= pow2(j),
            y.units() <= pow2(k),
    ;
    lemma_nearest_within(num, one_64(), rest);
}

/// A bounded number divided by one or more stays within its bound.
pub proof fn lemma_quotient_within(x: Binary64, n: nat, k: nat)
    requires
        x.bounded(k),
        0 < n < 0x20_0000_0000_0000,
        52 <= k < 2098,
    ensures
        x.quotient(Binary64::of(n)).bounded(k),
{
    let y = Binary64::of(n);
    let one = one_64();
    vstd::arithmetic::power2::lemma2_to64_rest();
    lemma_integer_is_positive(n);
    lemma_integer_is_exact(n);
    lemma_quotient_nonnegative(x, y);
    lemma_pow2_pos(1074);
    let num = x.units() * one;
    let den = y.units();
    assert(den > 0 && num <= pow2(k) * den) by (nonlinear_arith)
        requires
            num == x.units() * one,
            x.units() <= pow2(k),
            den == n * one,
            n >= 1,
            one > 0,
    ;
    lemma_nearest_within(num, den, k);
}

/// A limit that sums of small numbers never pass, however many there are: beside it
/// they are too small to count.
pub open spec fn sum_limit() -> nat {
    1800 * pow2(52)
}

/// The limit is a finite number's.
pub proof fn lemma_sum_limit()
    ensures
        sum_limit() < TOP_64,
{
    lemma_power_on_grid(1800);
}

/// A small number added to one within the limit leaves it there.
pub proof fn lemma_sum_stays_within(x: Binary64, y: Binary64)
    requires
        x.nonnegative(),
        x.magnitude() <= sum_limit(),
        y.bounded(1500),
    ensures
        x.sum(y).nonnegative(),
        x.sum(y).magnitude() <= sum_limit(),
        x.sum(y).finite(),
{
    let m = sum_limit();
    let h = pow2(52);
    lemma_power_on_grid(1800);
    vstd::arithmetic::power2::lemma2_to64_rest();
    lemma_sum_grows(x, y);
    lemma_nonnegative_amount(x);
    lemma_nonnegative_amount(y);
    lemma_grid_ordered(52, x.magnitude(), m);
    let total = x.units() + y.units();
    if total > 0 {
        let next = m + 1;
        assert(next == h * 1800 + 1);
        vstd::arithmetic::div_mod::lemma_fundamental_div_mod_converse(
            next as int,
            h as int,
            1800,
            1,
        );
        let gap = pow2(1799);
        lemma_pow2_adds(52, 1799);
        assert((h + 1) * gap == h * gap + gap) by (nonlinear_arith);
        assert(grid(52, next) == pow2(1851) + gap);
        vstd::arithmetic::power2::lemma_pow2_strictly_increases(1501, 1799);
        vstd::arithmetic::power2::lemma_pow2_unfold(1501);
        assert(!reaches(52, total, 1, next));
        let r = lemma_nearest_exists(52, TOP_64 as nat, total, 1, 0);
        lemma_nearest_unique(52, TOP_64 as nat, total, 1, r);
        if r > m {
            lemma_reaches_downward(52, total, 1, next, r);
        }
    }
}

/// A 32-bit number that is finite and not negative is bounded.
pub proof fn lemma_widened_within(x: Binary32)
    requires
        x.widened().finite(),
        x.widened().rank() >= 0,
    ensures
        x.widened().bounded(1202),
{
    vstd::arithmetic::power2::lemma2_to64();
    lemma_power_on_any_grid(23, 255);
    assert(255 * pow2(23) == TOP_32);
    lemma_grid_ordered(23, x.magnitude(), TOP_32 as nat);
    lemma_pow2_adds(277, 925);
    lemma_pow2_pos(925);
    let num = x.units() * one_32_unit();
    assert(num <= pow2(1202) * 1) by (nonlinear_arith)
        requires
            num == x.units() * one_32_unit(),
            x.units() <= pow2(277),
            pow2(1202) == pow2(277) * one_32_unit(),
    ;
    lemma_nearest_within(num, 1, 1202);
}

/// A positive machine word is held as a finite number, positive and at most `2^64`.
proof fn lemma_word_is_positive(n: nat)
    requires
        0 < n <= u64::MAX,
    ensures
        Binary64::of(n).finite(),
        !Binary64::of(n).sign(),
        Binary64::of(n).magnitude() > 0,
        Binary64::of(n).units() <= pow2(1138),
{
    vstd::arithmetic::power2::lemma2_to64_rest();
    vstd::arithmetic::power2::lemma2_to64();
    let one = one_64();
    let num = n * one;
    lemma_pow2_pos(1074);
    lemma_power_on_grid(1087);
    lemma_pow2_adds(64, 1074);
    assert(num <= pow2(1138) * 1) by (nonlinear_arith)
        requires
            num == n * one,
            n <= pow2(64),
            pow2(1138) == pow2(64) * one,
    ;
    lemma_nearest_at_most(52, TOP_64 as nat, num, 1, (1087 * pow2(52)) as nat);
    assert(grid(52, 1) == 1);
    assert(1 * 1 <= num) by (nonlinear_arith)
        requires
            num == n * one,
            n >= 1,
            one >= 1,
    ;
    lemma_nearest_at_least(52, TOP_64 as nat, num, 1, 1);
    lemma_grid_ordered(52, Binary64::of(n).magnitude(), (1087 * pow2(52)) as nat);
}

/// A positive proper fraction of at most `2^30` parts is held as no less than `2^-30`.
proof fn lemma_fraction_is_large(part: nat, parts: nat)
    requires
        0 < part < parts <= 0x4000_0000,
    ensures
        ({
            let q = Binary64::of(part).quotient(Binary64::of(parts));
            q.finite() && !q.sign() && q.magnitude() >= 993 * pow2(52)
        }),
{
    vstd::arithmetic::power2::lemma2_to64_rest();
    vstd::arithmetic::power2::lemma2_to64();
    let one = one_64();
    let x = Binary64::of(part);
    let y = Binary64::of(parts);
    lemma_fraction(part, parts);
    lemma_integer_is_positive(part);
    lemma_integer_is_positive(parts);
    lemma_integer_is_exact(part);
    lemma_integer_is_exact(parts);
    lemma_power_on_grid(993);
    lemma_pow2_adds(30, 1044);
    lemma_pow2_pos(1074);
    let low = pow2(1044);
    let num = x.units() * one;
    let den = y.units();
    assert(den > 0 && low * den <= num) by (nonlinear_arith)
        requires
            num == (part * one) * one,
            den == parts * one,
            0 < parts <= 0x4000_0000,
            one == 0x4000_0000 * low,
            part >= 1,
            one > 0,
    ;
    lemma_nearest_at_least(52, TOP_64 as nat, num, den, (993 * pow2(52)) as nat);
}

/// A positive mixed number of at most `2^30` parts is held as no less than `2^-30`.
proof fn lemma_mixed_is_large(whole: nat, part: nat, parts: nat)
    requires
        part < parts <= 0x4000_0000,
        whole + 1 < 0x20_0000_0000_0000,
        whole > 0 || part > 0,
    ensures
        ({
            let r = Binary64::of(whole).sum(Binary64::of(part).quotient(Binary64::of(parts)));
            r.finite() && !r.sign() && r.magnitude() >= 993 * pow2(52)
        }),
{
    let x = Binary64::of(whole);
    let q = Binary64::of(part).quotient(Binary64::of(parts));
    lemma_mixed_is_positive(whole, part, parts);
    lemma_fraction(part, parts);
    vstd::arithmetic::power2::lemma2_to64_rest();
    lemma_integer_is_exact(whole);
    lemma_sum_grows(x, q);
    if part > 0 {
        lemma_fraction_is_large(part, parts);
    } else {
        let one = one_64();
        lemma_pow2_pos(1074);
        lemma_power_on_grid(993);
        vstd::arithmetic::power2::lemma_pow2_strictly_increases(1044, 1074);
        let num = whole * one;
        assert(pow2(1044) * 1 <= num) by (nonlinear_arith)
            requires
                num == whole * one,
                whole >= 1,
                pow2(1044) < one,
        ;
        lemma_nearest_at_least(52, TOP_64 as nat, num, 1, (993 * pow2(52)) as nat);
    }
}

/// A machine word divided by a positive mixed number of at most `2^30` parts is finite
/// and not negative.
pub proof fn lemma_rate_is_finite(n: nat, whole: nat, part: nat, parts: nat)
    requires
        0 < n <= u64::MAX,
        part < parts <= 0x4000_0000,
        whole + 1 < 0x20_0000_0000_0000,
        whole > 0 || part > 0,
    ensures
        ({
            let time = Binary64::of(whole).sum(Binary64::of(part).quotient(Binary64::of(parts)));
            let rate = Binary64::of(n).quotient(time);
            rate.finite() && rate.nonnegative()
        }),
{
    let time = Binary64::of(whole).sum(Binary64::of(part).quotient(Binary64::of(parts)));
    let x = Binary64::of(n);
    let one = one_64();
    lemma_word_is_positive(n);
    lemma_mixed_is_large(whole, part, parts);
    lemma_pow2_pos(52);
    lemma_power_on_grid(993);
    lemma_grid_ordered(52, (993 * pow2(52)) as nat, time.magnitude());
    lemma_quotient_nonnegative(x, time);
    let num = x.units() * one;
    let den = time.units();
    lemma_power_on_grid(1117);
    lemma_pow2_adds(1138, 1074);
    lemma_pow2_adds(1168, 1044);
    lemma_pow2_pos(1044);
    lemma_pow2_pos(1168);
    assert(num <= pow2(2212)) by (nonlinear_arith)
        requires
            num == x.units() * one,
            x.units() <= pow2(1138),
            pow2(2212) == pow2(1138) * one,
    ;
    assert(pow2(2212) <= pow2(1168) * den) by (nonlinear_arith)
        requires
            pow2(2212) == pow2(1168) * pow2(1044),
            pow2(1044) <= den,
    ;
    lemma_nearest_at_most(52, TOP_64 as nat, num, den, (1117 * pow2(52)) as nat);
}

// ---------------------------------------------------------------------------
// Laws
// ---------------------------------------------------------------------------
/// Rounding to an integer gives the nearest one, the larger of two that are equally near,
/// and the integer part is the largest integer that is not above.
pub proof fn law_rounding_to_integers(x: Binary64)
    requires
        x.finite(),
    ensures
        2 * x.units() < (2 * x.rounded() + 1) * one_64(),
        (2 * x.rounded()) * one_64() <= 2 * x.units() + one_64(),
        x.whole() * one_64() <= x.units() < (x.whole() + 1) * one_64(),
{
    let one = one_64();
    lemma_pow2_pos(1074);
    let n = (2 * x.units() + one) as int;
    vstd::arithmetic::div_mod::lemma_fundamental_div_mod(n, (2 * one) as int);
    vstd::arithmetic::div_mod::lemma_mod_bound(n, (2 * one) as int);
    let q = x.rounded() as int;
    assert((2 * one) * q == (2 * q) * one) by (nonlinear_arith);
    assert((2 * q + 1) * one == (2 * q) * one + one) by (nonlinear_arith);
    vstd::arithmetic::div_mod::lemma_fundamental_div_mod(x.units() as int, one as int);
    vstd::arithmetic::div_mod::lemma_mod_bound(x.units() as int, one as int);
    let w = x.whole() as int;
    assert(one * w == w * one) by (nonlinear_arith);
    assert((w + 1) * one == w * one + one) by (nonlinear_arith);
}

/// A sum lies where the exact one does: no number comes between them. So it is exact where
/// the exact one is a number.
pub proof fn law_sum_is_the_closest(x: Binary64, y: Binary64, z: Binary64)
    requires
        x.finite(),
        y.finite(),
        z.finite(),
    ensures
        !x.sum(y).nan(),
        x.amount() + y.amount() <= z.amount() ==> x.sum(y).rank() <= z.rank(),
        x.amount() + y.amount() >= z.amount() ==> x.sum(y).rank() >= z.rank(),
        x.sum(y).rank() == y.sum(x).rank(),
{
    let total = x.amount() + y.amount();
    let top = TOP_64 as nat;
    lemma_grid_positive(52, z.magnitude());
    lemma_pow2_pos(52);
    if total > 0 {
        let num = total as nat;
        lemma_nearest_at_least(52, top, num, 1, 0);
        if !z.sign() && num <= z.units() {
            lemma_nearest_at_most(52, top, num, 1, z.magnitude());
        }
        if !z.sign() && num >= z.units() {
            lemma_nearest_at_least(52, top, num, 1, z.magnitude());
        }
    } else if total < 0 {
        let num = (-total) as nat;
        lemma_nearest_at_least(52, top, num, 1, 0);
        if z.sign() && num <= z.units() {
            lemma_nearest_at_most(52, top, num, 1, z.magnitude());
        }
        if z.sign() && num >= z.units() {
            lemma_nearest_at_least(52, top, num, 1, z.magnitude());
        }
    }
}

/// A product lies where the exact one does, and is negative where one factor alone is.
pub proof fn law_product_is_the_closest(x: Binary64, y: Binary64, z: Binary64)
    requires
        x.finite(),
        y.finite(),
        z.finite(),
    ensures
        !x.product(y).nan(),
        x.units() * y.units() <= z.units() * one_64() ==> x.product(y).magnitude()
            <= z.magnitude(),
        x.units() * y.units() >= z.units() * one_64() ==> x.product(y).magnitude()
            >= z.magnitude(),
        x.product(y).sign() == (x.sign() != y.sign()),
        x.product(y) == y.product(x),
{
    let num = x.units() * y.units();
    let top = TOP_64 as nat;
    lemma_pow2_pos(1074);
    lemma_pow2_pos(52);
    assert(num == y.units() * x.units()) by (nonlinear_arith)
        requires
            num == x.units() * y.units(),
    ;
    assert(grid(52, 0) * one_64() == 0) by (nonlinear_arith)
        requires
            grid(52, 0) == 0,
    ;
    lemma_nearest_at_least(52, top, num, one_64(), 0);
    if num <= z.units() * one_64() {
        lemma_nearest_at_most(52, top, num, one_64(), z.magnitude());
    }
    if num >= z.units() * one_64() {
        lemma_nearest_at_least(52, top, num, one_64(), z.magnitude());
    }
}

/// A quotient lies where the exact one does, and is negative where one part alone is.
pub proof fn law_quotient_is_the_closest(x: Binary64, y: Binary64, z: Binary64)
    requires
        x.finite(),
        y.finite(),
        y.magnitude() > 0,
        z.finite(),
    ensures
        !x.quotient(y).nan(),
        x.units() * one_64() <= z.units() * y.units() ==> x.quotient(y).magnitude()
            <= z.magnitude(),
        x.units() * one_64() >= z.units() * y.units() ==> x.quotient(y).magnitude()
            >= z.magnitude(),
        x.quotient(y).sign() == (x.sign() != y.sign()),
{
    let num = x.units() * one_64();
    let den = y.units();
    let top = TOP_64 as nat;
    lemma_grid_positive(52, y.magnitude());
    lemma_pow2_pos(52);
    assert(grid(52, 0) * den == 0) by (nonlinear_arith)
        requires
            grid(52, 0) == 0,
    ;
    lemma_nearest_at_least(52, top, num, den, 0);
    if num <= z.units() * den {
        lemma_nearest_at_most(52, top, num, den, z.magnitude());
    }
    if num >= z.units() * den {
        lemma_nearest_at_least(52, top, num, den, z.magnitude());
    }
}

/// A number made of an integer, or of a ratio of two, lies where the exact one does.
pub proof fn law_ratio_is_the_closest(n: nat, d: nat, z: Binary64)
    requires
        d > 0,
        z.finite(),
        !z.sign(),
    ensures
        n * one_64() <= z.units() * d ==> Binary64::ratio_of(n, d).rank() <= z.rank(),
        n * one_64() >= z.units() * d ==> Binary64::ratio_of(n, d).rank() >= z.rank(),
        Binary64::of(n) == Binary64::ratio_of(n, 1),
{
    let num = n * one_64();
    let top = TOP_64 as nat;
    lemma_pow2_pos(52);
    assert(grid(52, 0) * d == 0) by (nonlinear_arith)
        requires
            grid(52, 0) == 0,
    ;
    lemma_nearest_at_least(52, top, num, d, 0);
    if num <= z.units() * d {
        lemma_nearest_at_most(52, top, num, d, z.magnitude());
    }
    if num >= z.units() * d {
        lemma_nearest_at_least(52, top, num, d, z.magnitude());
    }
}

/// Numbers are ordered by their values, and those that stand for none are in no order.
pub proof fn law_order_of_numbers(x: Binary64, y: Binary64)
    ensures
        x.nan() || y.nan() ==> !x.at_most(y) && !x.below(y) && !x.equals(y),
        x.finite() && y.finite() ==> x.at_most(y) == (x.amount() <= y.amount()),
        x.finite() && y.finite() ==> x.below(y) == (x.amount() < y.amount()),
        x.finite() && y.finite() ==> x.equals(y) == (x.amount() == y.amount()),
{
    lemma_grid_positive(52, x.magnitude());
    lemma_grid_positive(52, y.magnitude());
    if x.magnitude() <= y.magnitude() {
        lemma_grid_ordered(52, x.magnitude(), y.magnitude());
    } else {
        lemma_grid_ordered(52, y.magnitude(), x.magnitude());
    }
    if x.magnitude() < y.magnitude() {
        lemma_grid_increases(52, x.magnitude());
        lemma_grid_ordered(52, x.magnitude() + 1, y.magnitude());
    }
    if y.magnitude() < x.magnitude() {
        lemma_grid_increases(52, y.magnitude());
        lemma_grid_ordered(52, y.magnitude() + 1, x.magnitude());
    }
}

/// A point of the grid over any denominator rounds to itself.
pub proof fn lemma_exact_ratio(p: nat, top: nat, b: nat, den: nat)
    requires
        den > 0,
        b < top,
    ensures
        nearest(p, top, grid(p, b) * den, den) == b,
{
    lemma_nearest_at_most(p, top, grid(p, b) * den, den, b);
    lemma_nearest_at_least(p, top, grid(p, b) * den, den, b);
}

/// A 64-bit number is narrowed to where it lies among the 32-bit ones, with its sign.
pub proof fn law_narrowed_is_the_closest(x: Binary64, z: Binary32)
    requires
        x.finite(),
        z.finite(),
    ensures
        x.units() <= z.units() * one_32_unit() ==> x.narrowed().magnitude() <= z.magnitude(),
        x.units() >= z.units() * one_32_unit() ==> x.narrowed().magnitude() >= z.magnitude(),
        x.narrowed().sign() == x.sign(),
{
    let num = x.units();
    let top = TOP_32 as nat;
    lemma_pow2_pos(23);
    lemma_pow2_pos(925);
    assert(grid(23, 0) * one_32_unit() == 0) by (nonlinear_arith)
        requires
            grid(23, 0) == 0,
    ;
    lemma_nearest_at_least(23, top, num, one_32_unit(), 0);
    if num <= z.units() * one_32_unit() {
        lemma_nearest_at_most(23, top, num, one_32_unit(), z.magnitude());
    }
    if num >= z.units() * one_32_unit() {
        lemma_nearest_at_least(23, top, num, one_32_unit(), z.magnitude());
    }
}

/// A 32-bit number is widened to where it lies among the 64-bit ones, with its sign; one
/// that stands for no number stays so.
pub proof fn law_widened_is_the_closest(x: Binary32, z: Binary64)
    requires
        z.finite(),
    ensures
        x.nan() ==> x.widened().nan(),
        x.infinite() ==> x.widened().infinite() && x.widened().sign() == x.sign(),
        x.finite() && x.units() * one_32_unit() <= z.units() ==> x.widened().magnitude()
            <= z.magnitude(),
        x.finite() && x.units() * one_32_unit() >= z.units() ==> x.widened().magnitude()
            >= z.magnitude(),
        x.finite() ==> x.widened().sign() == x.sign(),
{
    if x.finite() {
        let num = x.units() * one_32_unit();
        let top = TOP_64 as nat;
        lemma_pow2_pos(52);
        lemma_nearest_at_least(52, top, num, 1, 0);
        if num <= z.units() {
            lemma_nearest_at_most(52, top, num, 1, z.magnitude());
        }
        if num >= z.units() {
            lemma_nearest_at_least(52, top, num, 1, z.magnitude());
        }
    }
}

/// A 32-bit number made of an integer lies where the integer does.
pub proof fn law_small_integer_is_the_closest(n: nat, z: Binary32)
    requires
        z.finite(),
        !z.sign(),
    ensures
        n * pow2(149) <= z.units() ==> Binary32::of(n).rank() <= z.rank(),
        n * pow2(149) >= z.units() ==> Binary32::of(n).rank() >= z.rank(),
{
    let num = n * pow2(149);
    let top = TOP_32 as nat;
    lemma_pow2_pos(23);
    lemma_nearest_at_least(23, top, num, 1, 0);
    if num <= z.units() {
        lemma_nearest_at_most(23, top, num, 1, z.magnitude());
    }
    if num >= z.units() {
        lemma_nearest_at_least(23, top, num, 1, z.magnitude());
    }
}

} // verus!
