//! Arithmetic in the field with 256 elements.
//!
//! A field element is a byte whose bits are the coefficients of a polynomial
//! over GF(2), reduced modulo x^8 + x^4 + x^3 + x^2 + 1.  The sum of two
//! elements, and their difference, is their XOR.

use vstd::prelude::*;

verus! {

/// The low byte of the reduction polynomial x^8 + x^4 + x^3 + x^2 + 1.
pub const REDUCTION: u8 = 0x1d;

/// The product of a field element with the polynomial x.
pub open spec fn xtime(a: u8) -> u8 {
    if a & 0x80 == 0x80 {
        ((a & 0x7f) << 1) ^ 0x1d
    } else {
        (a & 0x7f) << 1
    }
}

/// `a` if the lowest bit of `b` is set, else 0.
pub open spec fn low_bit_times(b: u8, a: u8) -> u8 {
    if b & 1 == 1 {
        a
    } else {
        0
    }
}

/// `a` times the polynomial made of the lowest `k` bits of `b`.
pub open spec fn mul_bits(a: u8, b: u8, k: nat) -> u8
    decreases k,
{
    if k == 0 {
        0
    } else {
        low_bit_times(b, a) ^ mul_bits(xtime(a), b >> 1, (k - 1) as nat)
    }
}

/// The product of two field elements.
pub open spec fn gf_mul(a: u8, b: u8) -> u8 {
    mul_bits(a, b, 8)
}

/// The 254th power of a field element: its inverse, and 0 for 0.
pub open spec fn gf_inv(a: u8) -> u8 {
    let a2 = gf_mul(a, a);
    let a4 = gf_mul(a2, a2);
    let a8 = gf_mul(a4, a4);
    let a16 = gf_mul(a8, a8);
    let a32 = gf_mul(a16, a16);
    let a64 = gf_mul(a32, a32);
    let a128 = gf_mul(a64, a64);
    gf_mul(a128, gf_mul(a64, gf_mul(a32, gf_mul(a16, gf_mul(a8, gf_mul(a4, a2))))))
}

/// The quotient of two field elements; 0 where the divisor is 0.
pub open spec fn gf_div(a: u8, b: u8) -> u8 {
    gf_mul(a, gf_inv(b))
}

/// XOR is associative and commutative, 0 is its unit, and every byte is its
/// own opposite.
pub proof fn lemma_xor_laws(a: u8, b: u8, c: u8)
    ensures
        a ^ b == b ^ a,
        (a ^ b) ^ c == a ^ (b ^ c),
        a ^ 0 == a,
        0 ^ a == a,
        a ^ a == 0,
        a ^ b == 0 <==> a == b,
{
    assert(a ^ b == b ^ a) by (bit_vector);
    assert((a ^ b) ^ c == a ^ (b ^ c)) by (bit_vector);
    assert(a ^ 0 == a) by (bit_vector);
    assert(0 ^ a == a) by (bit_vector);
    assert(a ^ a == 0) by (bit_vector);
    assert(a ^ b == 0 <==> a == b) by (bit_vector);
}

#[verifier::rlimit(100)]
pub proof fn lemma_mul_commutative(a: u8, b: u8)
    ensures
        gf_mul(a, b) == gf_mul(b, a),
{
    assert(gf_mul(a, b) == gf_mul(b, a)) by (bit_vector);
}

pub proof fn lemma_mul_unit(a: u8)
    ensures
        gf_mul(1, a) == a,
        gf_mul(a, 1) == a,
        gf_mul(0, a) == 0,
        gf_mul(a, 0) == 0,
{
    assert(gf_mul(1, a) == a) by (bit_vector);
    assert(gf_mul(a, 1) == a) by (bit_vector);
    assert(gf_mul(0, a) == 0) by (bit_vector);
    assert(gf_mul(a, 0) == 0) by (bit_vector);
}

proof fn lemma_mul_xtime(a: u8, b: u8)
    ensures
        gf_mul(xtime(a), b) == xtime(gf_mul(a, b)),
{
    assert(gf_mul(xtime(a), b) == xtime(gf_mul(a, b))) by (bit_vector);
}

proof fn lemma_mul_bits_distributive(a: u8, b: u8, c: u8, k: nat)
    ensures
        mul_bits(a, b ^ c, k) == mul_bits(a, b, k) ^ mul_bits(a, c, k),
    decreases k,
{
    if k == 0 {
        assert(0u8 ^ 0u8 == 0u8) by (bit_vector);
    } else {
        let j = (k - 1) as nat;
        lemma_mul_bits_distributive(xtime(a), b >> 1, c >> 1, j);
        assert((b ^ c) >> 1 == (b >> 1) ^ (c >> 1)) by (bit_vector);
        assert(low_bit_times(b ^ c, a) == low_bit_times(b, a) ^ low_bit_times(c, a))
            by (bit_vector);
        let p = low_bit_times(b, a);
        let q = low_bit_times(c, a);
        let r = mul_bits(xtime(a), b >> 1, j);
        let s = mul_bits(xtime(a), c >> 1, j);
        assert((p ^ q) ^ (r ^ s) == (p ^ r) ^ (q ^ s)) by (bit_vector);
    }
}

pub proof fn lemma_mul_distributive(a: u8, b: u8, c: u8)
    ensures
        gf_mul(a, b ^ c) == gf_mul(a, b) ^ gf_mul(a, c),
        gf_mul(b ^ c, a) == gf_mul(b, a) ^ gf_mul(c, a),
{
    lemma_mul_bits_distributive(a, b, c, 8);
    lemma_mul_commutative(a, b ^ c);
    lemma_mul_commutative(a, b);
    lemma_mul_commutative(a, c);
}

proof fn lemma_mul_bits_then_mul(a: u8, b: u8, c: u8, k: nat)
    ensures
        gf_mul(mul_bits(a, b, k), c) == mul_bits(gf_mul(a, c), b, k),
    decreases k,
{
    if k == 0 {
        lemma_mul_unit(c);
    } else {
        let j = (k - 1) as nat;
        let p = low_bit_times(b, a);
        let r = mul_bits(xtime(a), b >> 1, j);
        lemma_mul_distributive(c, p, r);
        lemma_mul_unit(c);
        assert(gf_mul(p, c) == low_bit_times(b, gf_mul(a, c)));
        lemma_mul_bits_then_mul(xtime(a), b >> 1, c, j);
        lemma_mul_xtime(a, c);
    }
}

pub proof fn lemma_mul_associative(a: u8, b: u8, c: u8)
    ensures
        gf_mul(gf_mul(a, b), c) == gf_mul(a, gf_mul(b, c)),
{
    lemma_mul_commutative(a, b);
    lemma_mul_bits_then_mul(b, a, c, 8);
    lemma_mul_commutative(gf_mul(b, c), a);
}

pub proof fn lemma_inverse(a: u8)
    requires
        a != 0,
    ensures
        gf_mul(a, gf_inv(a)) == 1,
        gf_mul(gf_inv(a), a) == 1,
        gf_inv(a) != 0,
{
    let a2 = gf_mul(a, a);
    let a4 = gf_mul(a2, a2);
    let a8 = gf_mul(a4, a4);
    let a16 = gf_mul(a8, a8);
    let a32 = gf_mul(a16, a16);
    let a64 = gf_mul(a32, a32);
    let a128 = gf_mul(a64, a64);
    let p6 = gf_mul(a4, a2);
    let p14 = gf_mul(a8, p6);
    let p30 = gf_mul(a16, p14);
    let p62 = gf_mul(a32, p30);
    let p126 = gf_mul(a64, p62);
    let p254 = gf_mul(a128, p126);
    let one = gf_mul(a, p254);
    assert(one == 1) by (bit_vector)
        requires
            a != 0,
            a2 == gf_mul(a, a),
            a4 == gf_mul(a2, a2),
            a8 == gf_mul(a4, a4),
            a16 == gf_mul(a8, a8),
            a32 == gf_mul(a16, a16),
            a64 == gf_mul(a32, a32),
            a128 == gf_mul(a64, a64),
            p6 == gf_mul(a4, a2),
            p14 == gf_mul(a8, p6),
            p30 == gf_mul(a16, p14),
            p62 == gf_mul(a32, p30),
            p126 == gf_mul(a64, p62),
            p254 == gf_mul(a128, p126),
            one == gf_mul(a, p254),
    ;
    lemma_mul_commutative(a, gf_inv(a));
    lemma_mul_unit(a);
}

/// Dividing by a nonzero element undoes multiplying by it.
pub proof fn lemma_div_cancel(a: u8, d: u8)
    requires
        d != 0,
    ensures
        gf_mul(gf_div(a, d), d) == a,
{
    lemma_mul_associative(a, gf_inv(d), d);
    lemma_inverse(d);
    lemma_mul_unit(a);
}

/// A nonzero factor can be cancelled on both sides of an equation.
pub proof fn lemma_mul_cancel(c: u8, u: u8, v: u8)
    requires
        c != 0,
        gf_mul(c, u) == gf_mul(c, v),
    ensures
        u == v,
{
    lemma_inverse(c);
    lemma_mul_associative(gf_inv(c), c, u);
    lemma_mul_associative(gf_inv(c), c, v);
    lemma_mul_unit(u);
    lemma_mul_unit(v);
}

/// Two factors behind a common first one may change places.
pub proof fn lemma_mul_swap(a: u8, b: u8, c: u8)
    ensures
        gf_mul(gf_mul(a, b), c) == gf_mul(gf_mul(a, c), b),
{
    lemma_mul_associative(a, b, c);
    lemma_mul_commutative(b, c);
    lemma_mul_associative(a, c, b);
}

/// Multiplies a field element by the polynomial x.
pub fn times_x(a: u8) -> (r: u8)
    ensures
        r == xtime(a),
{
    let low: u8 = a & 0x7f;
    assert(low < 128) by (bit_vector)
        requires
            low == a & 0x7f,
    ;
    if a & 0x80 == 0x80 {
        (low << 1) ^ REDUCTION
    } else {
        low << 1
    }
}

/// Multiplies two field elements.
pub fn multiply(a: u8, b: u8) -> (r: u8)
    ensures
        r == gf_mul(a, b),
{
    let mut acc: u8 = 0;
    let mut x: u8 = a;
    let mut y: u8 = b;
    let mut i: u8 = 0;
    proof {
        lemma_xor_laws(gf_mul(a, b), 0, 0);
    }
    while i < 8
        invariant
            i <= 8,
            acc ^ mul_bits(x, y, (8 - i) as nat) == gf_mul(a, b),
        decreases 8 - i,
    {
        proof {
            lemma_xor_laws(
                acc,
                low_bit_times(y, x),
                mul_bits(xtime(x), y >> 1, (8 - i - 1) as nat),
            );
            lemma_xor_laws(acc, 0, 0);
        }
        if y & 1 == 1 {
            acc = acc ^ x;
        }
        x = times_x(x);
        y = y >> 1;
        i = i + 1;
    }
    proof {
        lemma_xor_laws(acc, 0, 0);
    }
    acc
}

/// The inverse of a field element; 0 for 0.
pub fn invert(a: u8) -> (r: u8)
    ensures
        r == gf_inv(a),
{
    let a2 = multiply(a, a);
    let a4 = multiply(a2, a2);
    let a8 = multiply(a4, a4);
    let a16 = multiply(a8, a8);
    let a32 = multiply(a16, a16);
    let a64 = multiply(a32, a32);
    let a128 = multiply(a64, a64);
    let p6 = multiply(a4, a2);
    let p14 = multiply(a8, p6);
    let p30 = multiply(a16, p14);
    let p62 = multiply(a32, p30);
    let p126 = multiply(a64, p62);
    multiply(a128, p126)
}

/// Divides one field element by another; 0 where the divisor is 0.
pub fn divide(a: u8, b: u8) -> (r: u8)
    ensures
        r == gf_div(a, b),
{
    multiply(a, invert(b))
}

} // verus!
