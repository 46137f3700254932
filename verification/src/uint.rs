//! Fixed-width identifiers and 256-bit numbers.
use std::cmp::Ordering;
use vstd::prelude::*;

verus! {

/// One more than the largest value of half a [`U256`].
pub open spec fn half_range() -> nat {
    0x1_0000_0000_0000_0000_0000_0000_0000_0000nat
}

/// One more than the largest [`U256`].
pub open spec fn range() -> nat {
    half_range() * half_range()
}

/// An unsigned number of 256 bits.
#[derive(Clone, Copy, Debug, PartialEq, Eq, Structural, Hash)]
pub struct U256 {
    /// The upper 128 bits.
    pub hi: u128,
    /// The lower 128 bits.
    pub lo: u128,
}

impl View for U256 {
    type V = nat;

    open spec fn view(&self) -> nat {
        self.hi as nat * half_range() + self.lo as nat
    }
}

/// The `U256` of value `n`.
pub open spec fn u256(n: nat) -> U256
    recommends
        n < range(),
{
    U256 { hi: (n / half_range()) as u128, lo: (n % half_range()) as u128 }
}

pub proof fn lemma_u256(n: nat)
    requires
        n < range(),
    ensures
        u256(n)@ == n,
{
    assert(n / half_range() < half_range()) by (nonlinear_arith)
        requires
            n < half_range() * half_range(),
            half_range() == 0x1_0000_0000_0000_0000_0000_0000_0000_0000nat,
    ;
}

/// A `U256` is determined by its value.
pub proof fn lemma_u256_injective(a: U256, b: U256)
    requires
        a@ == b@,
    ensures
        a == b,
{
}

impl PartialOrd for U256 {
    fn partial_cmp(&self, other: &U256) -> (r: Option<Ordering>) {
        if self.hi < other.hi || (self.hi == other.hi && self.lo < other.lo) {
            Some(Ordering::Less)
        } else if self.hi == other.hi && self.lo == other.lo {
            Some(Ordering::Equal)
        } else {
            Some(Ordering::Greater)
        }
    }
}

impl vstd::std_specs::cmp::PartialOrdSpecImpl for U256 {
    open spec fn obeys_partial_cmp_spec() -> bool {
        true
    }

    open spec fn partial_cmp_spec(&self, other: &U256) -> Option<Ordering> {
        if self@ < other@ {
            Some(Ordering::Less)
        } else if self@ == other@ {
            Some(Ordering::Equal)
        } else {
            Some(Ordering::Greater)
        }
    }
}

/// The product of two halves, as an upper and a lower half.
fn wide_product(x: u128, y: u128) -> (r: U256)
    ensures
        r@ == x as nat * y as nat,
{
    let b: u128 = 0x1_0000_0000_0000_0000u128;
    let x1: u128 = x / b;
    let x0: u128 = x % b;
    let y1: u128 = y / b;
    let y0: u128 = y % b;
    proof {
        lemma_limb_product(x0, y0);
        lemma_limb_product(x0, y1);
        lemma_limb_product(x1, y0);
        lemma_limb_product(x1, y1);
    }
    let p00: u128 = x0 * y0;
    let p01: u128 = x0 * y1;
    let p10: u128 = x1 * y0;
    let p11: u128 = x1 * y1;
    let mid: u128 = p01 + p00 / b;
    let cross: u128 = p10 + mid % b;
    assert(x as int * y as int == p11 * (b * b) + (p01 + p10) * b + p00) by (nonlinear_arith)
        requires
            x as int == x1 * b + x0,
            y as int == y1 * b + y0,
            p00 as int == x0 * y0,
            p01 as int == x0 * y1,
            p10 as int == x1 * y0,
            p11 as int == x1 * y1,
    ;
    let ghost total = p11 + mid / b + cross / b;
    assert(x as int * y as int == total * half_range() + (cross % b) * b + p00 % b);
    assert((x as int * y as int) < half_range() * half_range()) by (nonlinear_arith)
        requires
            0 <= x < half_range(),
            0 <= y < half_range(),
    ;
    assert(total < half_range()) by (nonlinear_arith)
        requires
            total * half_range() <= x as int * y as int,
            (x as int * y as int) < half_range() * half_range(),
            half_range() > 0,
    ;
    U256 { hi: p11 + mid / b + cross / b, lo: (cross % b) * b + p00 % b }
}

proof fn lemma_limb_product(x: u128, y: u128)
    requires
        x < 0x1_0000_0000_0000_0000,
        y < 0x1_0000_0000_0000_0000,
    ensures
        0 <= x * y <= 0xffff_ffff_ffff_fffe_0000_0000_0000_0001,
{
    assert(0 <= x * y <= 0xffff_ffff_ffff_ffff * 0xffff_ffff_ffff_ffff) by (nonlinear_arith)
        requires
            0 <= x <= 0xffff_ffff_ffff_ffff,
            0 <= y <= 0xffff_ffff_ffff_ffff,
    ;
}

impl U256 {
    pub fn zero() -> (r: U256)
        ensures
            r@ == 0,
    {
        U256 { hi: 0, lo: 0 }
    }

    pub fn one() -> (r: U256)
        ensures
            r@ == 1,
    {
        U256 { hi: 0, lo: 1 }
    }

    /// The largest value.
    pub fn max_value() -> (r: U256)
        ensures
            r@ == range() - 1,
    {
        U256 { hi: u128::MAX, lo: u128::MAX }
    }

    /// The sum, modulo the range, and whether it left the range.
    pub fn overflowing_add(self, other: U256) -> (r: (U256, bool))
        ensures
            r.1 == (self@ + other@ >= range()),
            r.0@ == if r.1 { (self@ + other@ - range()) as nat } else { self@ + other@ },
    {
        let carry: bool = self.lo > u128::MAX - other.lo;
        let lo: u128 = if carry {
            self.lo - (u128::MAX - other.lo) - 1
        } else {
            self.lo + other.lo
        };
        let room: u128 = u128::MAX - other.hi;
        if self.hi > room || (carry && self.hi == room) {
            let above: u128 = self.hi - room;
            let hi: u128 = if carry { above } else { above - 1 };
            (U256 { hi, lo }, true)
        } else {
            let hi: u128 = if carry { self.hi + other.hi + 1 } else { self.hi + other.hi };
            (U256 { hi, lo }, false)
        }
    }

    /// The sum.
    pub fn plus(self, other: U256) -> (r: U256)
        requires
            self@ + other@ < range(),
        ensures
            r@ == self@ + other@,
    {
        self.overflowing_add(other).0
    }

    /// The difference.
    pub fn minus(self, other: U256) -> (r: U256)
        requires
            other@ <= self@,
        ensures
            r@ == self@ - other@,
    {
        if self.lo >= other.lo {
            U256 { hi: self.hi - other.hi, lo: self.lo - other.lo }
        } else {
            U256 { hi: self.hi - other.hi - 1, lo: u128::MAX - other.lo + self.lo + 1 }
        }
    }

    /// The product.
    pub fn times(self, other: U256) -> (r: U256)
        requires
            self@ * other@ < range(),
        ensures
            r@ == self@ * other@,
    {
        let (a, b): (U256, U256) = if self.hi == 0 { (self, other) } else { (other, self) };
        let low: U256 = wide_product(a.lo, b.lo);
        proof {
            let h = half_range() as int;
            assert(a@ * b@ == self@ * other@) by (nonlinear_arith)
                requires
                    (a == self && b == other) || (a == other && b == self),
            ;
            if a.hi > 0 {
                assert(a@ * b@ >= h * h) by (nonlinear_arith)
                    requires
                        a@ >= h,
                        b@ >= h,
                        h > 0,
                ;
            }
            assert(a.lo as int * (b.hi as int * h + b.lo as int) == (a.lo as int * b.hi as int) * h
                + a.lo as int * b.lo as int) by (nonlinear_arith);
            assert(0 <= a.lo as int * b.hi as int) by (nonlinear_arith);
            assert(a.lo as int * b.hi as int + low.hi < h) by (nonlinear_arith)
                requires
                    (a.lo as int * b.hi as int) * h + low.hi * h + low.lo < h * h,
                    h > 0,
                    low.lo >= 0,
            ;
        }
        U256 { hi: a.lo * b.hi + low.hi, lo: low.lo }
    }

    /// The quotient, rounded down.
    pub fn div_u64(self, divisor: u64) -> (r: U256)
        requires
            divisor > 0,
        ensures
            r@ == self@ / divisor as nat,
    {
        let b: u128 = 0x1_0000_0000_0000_0000u128;
        let d: u128 = divisor as u128;
        let c3: u128 = self.hi / b;
        let q3: u128 = c3 / d;
        let r3: u128 = c3 % d;
        let c2: u128 = r3 * b + self.hi % b;
        let q2: u128 = c2 / d;
        let r2: u128 = c2 % d;
        let c1: u128 = r2 * b + self.lo / b;
        let q1: u128 = c1 / d;
        let r1: u128 = c1 % d;
        let c0: u128 = r1 * b + self.lo % b;
        let q0: u128 = c0 / d;
        let ghost r0 = c0 % d;
        proof {
            lemma_quotient_limb(c3, d);
            lemma_quotient_limb(c2, d);
            lemma_quotient_limb(c1, d);
            lemma_quotient_limb(c0, d);
            let quotient = (q3 * b + q2) * half_range() + (q1 * b + q0);
            let (p3, p2, p1, p0) = (q3 * d, q2 * d, q1 * d, q0 * d);
            assert(quotient * d == (p3 * 0x1_0000_0000_0000_0000 + p2) * half_range() + (p1
                * 0x1_0000_0000_0000_0000 + p0)) by (nonlinear_arith)
                requires
                    quotient == (q3 * b + q2) * half_range() + (q1 * b + q0),
                    b == 0x1_0000_0000_0000_0000,
                    p3 == q3 * d,
                    p2 == q2 * d,
                    p1 == q1 * d,
                    p0 == q0 * d,
            ;
            assert(self.hi as int == p3 * 0x1_0000_0000_0000_0000 + p2 + r2);
            assert(r2 * half_range() + self.lo as int == p1 * 0x1_0000_0000_0000_0000 + p0 + r0);
            assert(self@ as int == quotient * d + r0);
            vstd::arithmetic::div_mod::lemma_fundamental_div_mod_converse(
                self@ as int,
                d as int,
                quotient,
                r0 as int,
            );
        }
        U256 { hi: q3 * b + q2, lo: q1 * b + q0 }
    }
}

/// Dividing a limb, with a remainder carried in, gives a limb.
proof fn lemma_quotient_limb(c: u128, d: u128)
    requires
        0 < d,
        c < d * 0x1_0000_0000_0000_0000,
    ensures
        c as int == (c / d) * d + c % d,
        c % d < d,
        c / d < 0x1_0000_0000_0000_0000,
{
    vstd::arithmetic::div_mod::lemma_fundamental_div_mod(c as int, d as int);
    assert(c as int == (c / d) * d + c % d) by (nonlinear_arith)
        requires
            c as int == d as int * (c as int / d as int) + c as int % d as int,
    ;
    assert(c / d < 0x1_0000_0000_0000_0000) by (nonlinear_arith)
        requires
            0 < d,
            c < d * 0x1_0000_0000_0000_0000,
            c as int == (c / d) * d + c % d,
            c % d >= 0,
    ;
}

impl Default for U256 {
    fn default() -> (r: U256)
        ensures
            r@ == 0,
    {
        U256::zero()
    }
}

impl From<u64> for U256 {
    fn from(value: u64) -> (r: U256) {
        U256 { hi: 0, lo: value as u128 }
    }
}

impl vstd::std_specs::convert::FromSpecImpl<u64> for U256 {
    open spec fn obeys_from_spec() -> bool {
        true
    }

    open spec fn from_spec(value: u64) -> U256 {
        U256 { hi: 0, lo: value as u128 }
    }
}

/// A hash of 256 bits. Hashes are ordered as the big-endian bytes are.
#[derive(Clone, Copy, Debug, PartialEq, Eq, Structural, Hash)]
pub struct H256 {
    /// The first 16 bytes.
    pub hi: u128,
    /// The last 16 bytes.
    pub lo: u128,
}

impl H256 {
    /// Whether this hash comes before `other`.
    pub open spec fn precedes(self, other: H256) -> bool {
        self.hi < other.hi || (self.hi == other.hi && self.lo < other.lo)
    }
}

/// The address of an account, 160 bits.
#[derive(Clone, Copy, Debug, PartialEq, Eq, Structural, Hash)]
pub struct Address {
    /// The first 4 bytes.
    pub hi: u32,
    /// The last 16 bytes.
    pub lo: u128,
}

impl Default for Address {
    fn default() -> (r: Address)
        ensures
            r == (Address { hi: 0, lo: 0 }),
    {
        Address { hi: 0, lo: 0 }
    }
}

} // verus!
