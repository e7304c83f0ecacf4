//! Arithmetic in GF(2^8), the 256-element field used by the Reed-Solomon
//! code of QR symbols. The field is defined by the primitive polynomial
//! x^8 + x^4 + x^3 + x^2 + 1 (0x11D) with generator alpha = 2. Addition is
//! XOR; multiplication is carry-less polynomial multiplication reduced by
//! the field polynomial, computed bit by bit.

use vstd::prelude::*;

verus! {

/// One element of GF(2^8).
#[derive(Clone, Copy, Debug, PartialEq, Eq, Structural)]
pub struct GF8(pub u8);

/// Multiplication by x (alpha) in GF(2^8), reduced by the field polynomial.
pub open spec fn gf_double(a: u8) -> u8 {
    if a >= 128 {
        ((((a as u16) << 1) ^ 0x11D) & 0xFF) as u8
    } else {
        ((a as u16) << 1) as u8
    }
}

/// Carry-less product of `a` and the low `k` bits of `b`, reduced by the
/// field polynomial.
pub open spec fn gf_mul_rec(a: u8, b: u8, k: nat) -> u8
    decreases k,
{
    if k == 0 {
        0
    } else {
        (if b & 1 == 1 {
            a
        } else {
            0
        }) ^ gf_mul_rec(gf_double(a), b >> 1, (k - 1) as nat)
    }
}

/// The field product of two elements of GF(2^8).
pub open spec fn gf_mul(a: u8, b: u8) -> u8 {
    gf_mul_rec(a, b, 8)
}

/// The `e`-th power of `a` in GF(2^8).
pub open spec fn gf_pow(a: u8, e: nat) -> u8
    decreases e,
{
    if e == 0 {
        1
    } else {
        gf_mul(a, gf_pow(a, (e - 1) as nat))
    }
}

/// The field quotient a / b, computed as a * b^254; by Fermat's little
/// theorem b^254 is the inverse of a nonzero b, and b = 0 yields 0.
pub open spec fn gf_div(a: u8, b: u8) -> u8 {
    gf_mul(a, gf_pow(b, 254))
}

/// Number of set bits among the low `k` bits of `x`.
pub open spec fn popcount_rec(x: u8, k: nat) -> nat
    decreases k,
{
    if k == 0 {
        0
    } else {
        (x & 1) as nat + popcount_rec(x >> 1, (k - 1) as nat)
    }
}

/// Number of set bits of a byte.
pub open spec fn popcount(x: u8) -> nat {
    popcount_rec(x, 8)
}

/// Multiplication by x (alpha), the executable mirror of `gf_double`.
fn gf_double_exec(a: u8) -> (r: u8)
    ensures
        r == gf_double(a),
{
    if a >= 128 {
        proof {
            assert((((a as u16) << 1) ^ 0x11D) & 0xFF == ((a as u16) << 1) ^ 0x11D
                && (((a as u16) << 1) ^ 0x11D) < 256) by (bit_vector)
                requires
                    a >= 128,
            ;
        }
        (((a as u16) << 1) ^ 0x11D) as u8
    } else {
        proof {
            assert(((a as u16) << 1) < 256) by (bit_vector)
                requires
                    a < 128,
            ;
        }
        ((a as u16) << 1) as u8
    }
}

proof fn lemma_xor_zero(x: u8)
    ensures
        x ^ 0 == x,
        0 ^ x == x,
{
    assert(x ^ 0 == x && 0 ^ x == x) by (bit_vector);
}

proof fn lemma_xor_assoc(a: u8, b: u8, c: u8)
    ensures
        (a ^ b) ^ c == a ^ (b ^ c),
{
    assert((a ^ b) ^ c == a ^ (b ^ c)) by (bit_vector);
}

impl GF8 {
    /// Field addition: XOR of the two representations.
    pub fn gf_add(self, other: GF8) -> (r: GF8)
        ensures
            r.0 == self.0 ^ other.0,
    {
        GF8(self.0 ^ other.0)
    }

    /// Field subtraction; in characteristic 2 it equals addition.
    pub fn gf_sub(self, other: GF8) -> (r: GF8)
        ensures
            r.0 == self.0 ^ other.0,
    {
        GF8(self.0 ^ other.0)
    }

    /// Field multiplication by the shift-and-add (Russian peasant) method.
    pub fn gf_mul(self, other: GF8) -> (r: GF8)
        ensures
            r.0 == gf_mul(self.0, other.0),
    {
        let mut acc: u8 = 0;
        let mut a = self.0;
        let mut b = other.0;
        let mut i: u32 = 0;
        proof {
            lemma_xor_zero(gf_mul_rec(a, b, 8));
        }
        while i < 8
            invariant
                i <= 8,
                acc ^ gf_mul_rec(a, b, (8 - i) as nat) == gf_mul(self.0, other.0),
            decreases 8 - i,
        {
            let ghost acc0 = acc;
            let ghost a0 = a;
            let ghost b0 = b;
            let low: u8 = if b & 1 == 1 {
                a
            } else {
                0
            };
            acc = acc ^ low;
            a = gf_double_exec(a);
            b = b >> 1;
            i = i + 1;
            proof {
                lemma_xor_assoc(acc0, low, gf_mul_rec(a, b, (8 - i) as nat));
            }
        }
        proof {
            lemma_xor_zero(acc);
        }
        GF8(acc)
    }

    /// The `e`-th power of this element, by repeated multiplication.
    pub fn gf_pow(self, e: u32) -> (r: GF8)
        ensures
            r.0 == gf_pow(self.0, e as nat),
    {
        let mut acc = GF8(1);
        let mut i: u32 = 0;
        while i < e
            invariant
                i <= e,
                acc.0 == gf_pow(self.0, i as nat),
            decreases e - i,
        {
            acc = self.gf_mul(acc);
            i = i + 1;
        }
        acc
    }

    /// Field division: multiplication by the divisor's inverse b^254.
    /// Division by zero yields zero, since 0^254 = 0.
    pub fn gf_div(self, other: GF8) -> (r: GF8)
        ensures
            r.0 == gf_div(self.0, other.0),
    {
        let inv = other.gf_pow(254);
        self.gf_mul(inv)
    }
}

/// The power alpha^e of the field generator alpha = 2.
pub fn alpha_pow(e: u32) -> (r: GF8)
    ensures
        r.0 == gf_pow(2, e as nat),
{
    GF8(2).gf_pow(e)
}

proof fn lemma_mul_rec_zero(a: u8, k: nat)
    ensures
        gf_mul_rec(a, 0, k) == 0,
    decreases k,
{
    if k > 0 {
        assert(0u8 & 1 == 0 && 0u8 >> 1 == 0) by (bit_vector);
        lemma_mul_rec_zero(gf_double(a), (k - 1) as nat);
        assert(0u8 ^ 0u8 == 0) by (bit_vector);
    }
}

/// A positive power unfolds by one factor.
pub proof fn lemma_gf_pow_step(a: u8, e: nat)
    requires
        e >= 1,
    ensures
        gf_pow(a, e) == gf_mul(a, gf_pow(a, (e - 1) as nat)),
{
}

/// One is the multiplicative identity of GF(2^8) on the right.
pub proof fn lemma_gf_mul_one(a: u8)
    ensures
        gf_mul(a, 1) == a,
{
    assert(1u8 & 1 == 1 && 1u8 >> 1 == 0) by (bit_vector);
    lemma_mul_rec_zero(gf_double(a), 7);
    assert(a ^ 0 == a) by (bit_vector);
}

/// A byte holds at most eight set bits.
pub proof fn lemma_popcount_le8(x: u8)
    ensures
        popcount(x) <= 8,
{
    lemma_popcount_rec_le(x, 8);
}

proof fn lemma_popcount_rec_le(x: u8, k: nat)
    ensures
        popcount_rec(x, k) <= k,
    decreases k,
{
    if k > 0 {
        lemma_popcount_rec_le(x >> 1, (k - 1) as nat);
        assert(x & 1 <= 1) by (bit_vector);
    }
}

/// Number of set bits of a byte, counted bit by bit.
pub fn popcount_u8(x: u8) -> (r: u32)
    ensures
        r == popcount(x),
{
    let mut acc: u32 = 0;
    let mut v = x;
    let mut i: u32 = 0;
    while i < 8
        invariant
            i <= 8,
            acc + popcount_rec(v, (8 - i) as nat) == popcount(x),
            acc <= i,
        decreases 8 - i,
    {
        proof {
            assert(v & 1 <= 1) by (bit_vector);
        }
        acc = acc + (v & 1) as u32;
        v = v >> 1;
        i = i + 1;
    }
    acc
}

} // verus!
