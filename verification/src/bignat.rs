//! Natural numbers of any size, as little-endian sequences of 32-bit limbs.
use vstd::arithmetic::power2::{lemma_pow2_adds, lemma_pow2_pos, pow2};
use vstd::prelude::*;

verus! {

/// The number of values of one limb.
pub open spec fn base() -> nat {
    0x1_0000_0000
}

/// The weight of the limb at position `i`.
pub open spec fn weight(i: nat) -> nat {
    pow2(32 * i)
}

/// The limb at position `i`; limbs past the end count as zero.
pub open spec fn limb(s: Seq<u32>, i: nat) -> nat {
    if i < s.len() {
        s[i as int] as nat
    } else {
        0
    }
}

/// The number that the lowest `n` limbs stand for.
pub open spec fn low_value(s: Seq<u32>, n: nat) -> nat
    decreases n,
{
    if n == 0 {
        0
    } else {
        low_value(s, (n - 1) as nat) + limb(s, (n - 1) as nat) * weight((n - 1) as nat)
    }
}

proof fn lemma_weight_step(i: nat)
    ensures
        weight(i + 1) == base() * weight(i),
        weight(i) > 0,
        weight(0) == 1,
{
    assert(pow2(32) == 0x1_0000_0000) by {
        vstd::arithmetic::power2::lemma2_to64();
    }
    lemma_pow2_adds(32, 32 * i);
    assert(32 * (i + 1) == 32 + 32 * i);
    lemma_pow2_pos(32 * i);
    vstd::arithmetic::power2::lemma2_to64();
}

proof fn lemma_low_value_frame(s: Seq<u32>, t: Seq<u32>, n: nat)
    requires
        forall|i: nat| i < n ==> #[trigger] limb(s, i) == limb(t, i),
    ensures
        low_value(s, n) == low_value(t, n),
    decreases n,
{
    if n > 0 {
        lemma_low_value_frame(s, t, (n - 1) as nat);
        assert(limb(s, (n - 1) as nat) == limb(t, (n - 1) as nat));
    }
}

proof fn lemma_low_value_padding(s: Seq<u32>, n: nat)
    requires
        n >= s.len(),
    ensures
        low_value(s, n) == low_value(s, s.len()),
    decreases n,
{
    if n > s.len() {
        lemma_low_value_padding(s, (n - 1) as nat);
        assert(limb(s, (n - 1) as nat) == 0);
        assert(0 * weight((n - 1) as nat) == 0) by (nonlinear_arith);
    }
}

proof fn lemma_push(s: Seq<u32>, d: u32)
    ensures
        low_value(s.push(d), s.len() + 1) == low_value(s, s.len()) + d * weight(s.len()),
{
    let t = s.push(d);
    lemma_low_value_frame(s, t, s.len());
    assert(limb(t, s.len()) == d as nat);
    assert(low_value(t, (s.len() + 1) as nat) == low_value(t, s.len()) + limb(t, s.len()) * weight(
        s.len(),
    ));
}

proof fn lemma_low_value_bound(s: Seq<u32>, n: nat)
    ensures
        low_value(s, n) < weight(n),
    decreases n,
{
    lemma_weight_step(n);
    if n > 0 {
        let m = (n - 1) as nat;
        lemma_low_value_bound(s, m);
        lemma_weight_step(m);
        let d = limb(s, m);
        let w = weight(m);
        assert(d <= base() - 1);
        assert(d * w <= (base() - 1) * w) by (nonlinear_arith)
            requires
                d <= base() - 1,
        ;
        assert((base() - 1) * w + w == base() * w) by (nonlinear_arith);
    }
}

proof fn lemma_leading_zeros(s: Seq<u32>, k: nat, n: nat)
    requires
        k <= s.len(),
        forall|i: int| 0 <= i < k ==> s[i] == 0,
    ensures
        low_value(s, k + n) == weight(k) * low_value(s.skip(k as int), n),
    decreases n,
{
    let t = s.skip(k as int);
    if n == 0 {
        lemma_zeros(s, k);
        assert(weight(k) * 0 == 0) by (nonlinear_arith);
    } else {
        let m = (n - 1) as nat;
        lemma_leading_zeros(s, k, m);
        assert(limb(s, k + m) == limb(t, m));
        lemma_pow2_adds(32 * k, 32 * m);
        assert(32 * k + 32 * m == 32 * (k + m));
        assert(weight(k + m) == weight(k) * weight(m));
        let a = weight(k);
        let b = weight(m);
        let d = limb(t, m);
        let v = low_value(t, m);
        assert(a * v + d * (a * b) == a * (v + d * b)) by (nonlinear_arith);
        assert(k + n - 1 == k + m);
        assert((k + n - 1) as nat == k + m);
    }
}

proof fn lemma_zeros(s: Seq<u32>, k: nat)
    requires
        k <= s.len(),
        forall|i: int| 0 <= i < k ==> s[i] == 0,
    ensures
        low_value(s, k) == 0,
    decreases k,
{
    if k > 0 {
        lemma_zeros(s, (k - 1) as nat);
        assert(limb(s, (k - 1) as nat) == 0);
        assert(0 * weight((k - 1) as nat) == 0) by (nonlinear_arith);
    }
}

/// A natural number of any size.
pub struct BigNat {
    limbs: Vec<u32>,
}

impl View for BigNat {
    type V = nat;

    closed spec fn view(&self) -> nat {
        low_value(self.limbs@, self.limbs@.len())
    }
}

impl BigNat {
    fn limb_at(&self, i: usize) -> (d: u32)
        ensures
            d as nat == limb(self.limbs@, i as nat),
    {
        if i < self.limbs.len() {
            self.limbs[i]
        } else {
            0
        }
    }

    fn longest(&self, other: &BigNat) -> (n: usize)
        ensures
            n >= self.limbs@.len(),
            n >= other.limbs@.len(),
            n == self.limbs@.len() || n == other.limbs@.len(),
            low_value(self.limbs@, n as nat) == self@,
            low_value(other.limbs@, n as nat) == other@,
    {
        let n: usize = if self.limbs.len() < other.limbs.len() {
            other.limbs.len()
        } else {
            self.limbs.len()
        };
        proof {
            lemma_low_value_padding(self.limbs@, n as nat);
            lemma_low_value_padding(other.limbs@, n as nat);
        }
        n
    }

    /// The number with the value of `x`.
    pub fn from_u64(x: u64) -> (r: BigNat)
        ensures
            r@ == x as nat,
    {
        let low: u32 = (x % 0x1_0000_0000) as u32;
        let high: u32 = (x / 0x1_0000_0000) as u32;
        let mut limbs: Vec<u32> = Vec::new();
        proof {
            lemma_push(limbs@, low);
            lemma_push(limbs@.push(low), high);
            lemma_weight_step(0);
            let w = weight(1);
            assert(weight(1) == base());
            assert(low * 1 + high * base() == x) by (nonlinear_arith)
                requires
                    low + high * 0x1_0000_0000 == x,
            ;
            assert(limbs@.push(low).len() == 1);
        }
        limbs.push(low);
        limbs.push(high);
        BigNat { limbs }
    }

    /// The sum of two numbers.
    pub fn plus(&self, other: &BigNat) -> (r: BigNat)
        ensures
            r@ == self@ + other@,
    {
        let n: usize = self.longest(other);
        let mut out: Vec<u32> = Vec::new();
        let mut carry: u64 = 0;
        let mut i: usize = 0;
        assert(0 * weight(0) == 0) by (nonlinear_arith);
        while i < n
            invariant
                i <= n,
                out@.len() == i,
                carry <= 1,
                low_value(out@, i as nat) + carry * weight(i as nat) == low_value(
                    self.limbs@,
                    i as nat,
                ) + low_value(other.limbs@, i as nat),
            decreases n - i,
        {
            let a: u32 = self.limb_at(i);
            let b: u32 = other.limb_at(i);
            let total: u64 = a as u64 + b as u64 + carry;
            let digit: u32 = (total % 0x1_0000_0000) as u32;
            let next: u64 = total / 0x1_0000_0000;
            proof {
                lemma_push(out@, digit);
                lemma_weight_step(i as nat);
                let w = weight(i as nat);
                assert(a * w + b * w + carry * w == digit * w + next * (0x1_0000_0000 * w))
                    by (nonlinear_arith)
                    requires
                        a + b + carry == digit + next * 0x1_0000_0000,
                ;
            }
            out.push(digit);
            carry = next;
            i = i + 1;
        }
        proof {
            lemma_push(out@, carry as u32);
        }
        out.push(carry as u32);
        BigNat { limbs: out }
    }

    /// The difference of two numbers, the second of which is no larger.
    pub fn minus(&self, other: &BigNat) -> (r: BigNat)
        requires
            other@ <= self@,
        ensures
            r@ == self@ - other@,
    {
        let n: usize = self.longest(other);
        let mut out: Vec<u32> = Vec::new();
        let mut borrow: u64 = 0;
        let mut i: usize = 0;
        assert(0 * weight(0) == 0) by (nonlinear_arith);
        while i < n
            invariant
                i <= n,
                out@.len() == i,
                borrow <= 1,
                low_value(out@, i as nat) + low_value(other.limbs@, i as nat) == low_value(
                    self.limbs@,
                    i as nat,
                ) + borrow * weight(i as nat),
            decreases n - i,
        {
            let a: u32 = self.limb_at(i);
            let b: u32 = other.limb_at(i);
            let need: u64 = b as u64 + borrow;
            let next: u64 = if (a as u64) < need { 1 } else { 0 };
            let digit: u32 = (a as u64 + next * 0x1_0000_0000 - need) as u32;
            proof {
                lemma_push(out@, digit);
                lemma_weight_step(i as nat);
                let w = weight(i as nat);
                assert(digit * w + b * w + borrow * w == a * w + next * (0x1_0000_0000 * w))
                    by (nonlinear_arith)
                    requires
                        digit + b + borrow == a + next * 0x1_0000_0000,
                ;
            }
            out.push(digit);
            borrow = next;
            i = i + 1;
        }
        proof {
            lemma_low_value_bound(out@, n as nat);
            let w = weight(n as nat);
            if borrow == 1 {
                assert(1 * w == w);
            }
            assert(0 * w == 0) by (nonlinear_arith);
        }
        BigNat { limbs: out }
    }

    /// The product with one limb.
    pub fn times_u32(&self, m: u32) -> (r: BigNat)
        ensures
            r@ == self@ * m,
    {
        let n: usize = self.limbs.len();
        let mut out: Vec<u32> = Vec::new();
        let mut carry: u64 = 0;
        let mut i: usize = 0;
        assert(0 * weight(0) == 0) by (nonlinear_arith);
        assert(0 * m == 0) by (nonlinear_arith);
        while i < n
            invariant
                i <= n,
                n == self.limbs@.len(),
                out@.len() == i,
                carry < 0x1_0000_0000,
                low_value(out@, i as nat) + carry * weight(i as nat) == low_value(
                    self.limbs@,
                    i as nat,
                ) * m,
            decreases n - i,
        {
            let a: u32 = self.limbs[i];
            assert(a * m <= 0xffff_ffff * 0xffff_ffff) by (nonlinear_arith)
                requires
                    a <= 0xffff_ffffu32,
                    m <= 0xffff_ffffu32,
            ;
            let total: u64 = (a as u64) * (m as u64) + carry;
            let digit: u32 = (total % 0x1_0000_0000) as u32;
            let next: u64 = total / 0x1_0000_0000;
            proof {
                lemma_push(out@, digit);
                lemma_weight_step(i as nat);
                let w = weight(i as nat);
                let v = low_value(self.limbs@, i as nat);
                assert(v * m + (a * m) * w == (v + a * w) * m) by (nonlinear_arith);
                assert((a * m) * w + carry * w == digit * w + next * (0x1_0000_0000 * w))
                    by (nonlinear_arith)
                    requires
                        a * m + carry == digit + next * 0x1_0000_0000,
                ;
                assert(limb(self.limbs@, i as nat) == a as nat);
            }
            out.push(digit);
            carry = next;
            i = i + 1;
        }
        proof {
            lemma_push(out@, carry as u32);
        }
        out.push(carry as u32);
        BigNat { limbs: out }
    }

    /// The number with `k` zero limbs put below it.
    fn shift_limbs(&self, k: usize) -> (r: BigNat)
        ensures
            r@ == weight(k as nat) * self@,
    {
        let mut out: Vec<u32> = Vec::new();
        let mut i: usize = 0;
        while i < k
            invariant
                i <= k,
                out@.len() == i,
                forall|j: int| 0 <= j < i ==> out@[j] == 0,
            decreases k - i,
        {
            out.push(0);
            i = i + 1;
        }
        let mut j: usize = 0;
        while j < self.limbs.len()
            invariant
                j <= self.limbs@.len(),
                out@.len() == k + j,
                forall|q: int| 0 <= q < k ==> out@[q] == 0,
                forall|q: int| 0 <= q < j ==> out@[k + q] == self.limbs@[q],
            decreases self.limbs@.len() - j,
        {
            out.push(self.limbs[j]);
            j = j + 1;
        }
        proof {
            lemma_leading_zeros(out@, k as nat, self.limbs@.len());
            assert(out@.skip(k as int) =~= self.limbs@);
        }
        BigNat { limbs: out }
    }

    /// The product with `2^k`.
    pub fn shifted(&self, k: u32) -> (r: BigNat)
        ensures
            r@ == self@ * pow2(k as nat),
    {
        let words: u32 = k / 32;
        let rest: u32 = k % 32;
        let m: u32 = 1u32 << rest;
        proof {
            vstd::arithmetic::power2::lemma2_to64();
            vstd::arithmetic::power2::lemma_pow2_strictly_increases(rest as nat, 32);
            vstd::bits::lemma_u32_shl_is_mul(1, rest);
        }
        let scaled = self.times_u32(m);
        let r = scaled.shift_limbs(words as usize);
        proof {
            lemma_pow2_adds(32 * (words as nat), rest as nat);
            let a = self@;
            let w = weight(words as nat);
            assert(w * (a * (m as nat)) == a * (w * (m as nat))) by (nonlinear_arith);
        }
        r
    }

    /// The product of two numbers.
    pub fn times(&self, other: &BigNat) -> (r: BigNat)
        ensures
            r@ == self@ * other@,
    {
        let mut total = BigNat::from_u64(0);
        let mut j: usize = 0;
        assert(self@ * 0 == 0) by (nonlinear_arith);
        while j < other.limbs.len()
            invariant
                j <= other.limbs@.len(),
                total@ == self@ * low_value(other.limbs@, j as nat),
            decreases other.limbs@.len() - j,
        {
            let d: u32 = other.limbs[j];
            let part = self.times_u32(d).shift_limbs(j);
            total = total.plus(&part);
            proof {
                let a = self@;
                let w = weight(j as nat);
                let v = low_value(other.limbs@, j as nat);
                assert(a * v + w * (a * (d as nat)) == a * (v + (d as nat) * w))
                    by (nonlinear_arith);
                assert(limb(other.limbs@, j as nat) == d as nat);
            }
            j = j + 1;
        }
        total
    }

    /// Whether this number is smaller than `other`.
    pub fn less(&self, other: &BigNat) -> (r: bool)
        ensures
            r == (self@ < other@),
    {
        let n: usize = self.longest(other);
        let mut low_less: bool = false;
        let mut i: usize = 0;
        while i < n
            invariant
                i <= n,
                low_less == (low_value(self.limbs@, i as nat) < low_value(other.limbs@, i as nat)),
            decreases n - i,
        {
            let a: u32 = self.limb_at(i);
            let b: u32 = other.limb_at(i);
            proof {
                lemma_low_value_bound(self.limbs@, i as nat);
                lemma_low_value_bound(other.limbs@, i as nat);
                let w = weight(i as nat);
                if a < b {
                    assert(a * w + w <= b * w) by (nonlinear_arith)
                        requires
                            a + 1 <= b,
                    ;
                } else if b < a {
                    assert(b * w + w <= a * w) by (nonlinear_arith)
                        requires
                            b + 1 <= a,
                    ;
                }
            }
            if a < b {
                low_less = true;
            } else if b < a {
                low_less = false;
            }
            i = i + 1;
        }
        low_less
    }

    /// Whether the number is zero.
    pub fn is_zero(&self) -> (r: bool)
        ensures
            r == (self@ == 0),
    {
        let zero = BigNat::from_u64(0);
        !zero.less(self)
    }
}

} // verus!
