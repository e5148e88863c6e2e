//! Polynomials over GF(256): evaluation, and interpolation at zero.
//!
//! A polynomial is the sequence of its coefficients, the constant term first.
//! The central fact proved here is that Lagrange interpolation at zero,
//! through the values of a polynomial at as many distinct points as it has
//! coefficients (or more), gives back its constant term.

use vstd::prelude::*;
use crate::gf256::{
    divide, gf_div, gf_mul, lemma_div_cancel, lemma_mul_associative, lemma_mul_cancel,
    lemma_mul_commutative, lemma_mul_distributive, lemma_mul_swap, lemma_mul_unit,
    lemma_xor_laws, multiply,
};

verus! {

/// The value at `x` of the polynomial with coefficients `c`.
pub open spec fn poly_eval(c: Seq<u8>, x: u8) -> u8
    decreases c.len(),
{
    if c.len() == 0 {
        0
    } else {
        c[0] ^ gf_mul(x, poly_eval(c.drop_first(), x))
    }
}

/// The values of the polynomial `c` at each of the points `xs`.
pub open spec fn poly_values(c: Seq<u8>, xs: Seq<u8>) -> Seq<u8> {
    Seq::new(xs.len(), |j: int| poly_eval(c, xs[j]))
}

/// The sequence of `n` ones.
pub open spec fn ones(n: nat) -> Seq<u8> {
    Seq::new(n, |j: int| 1u8)
}

/// No point occurs twice.
pub open spec fn distinct(xs: Seq<u8>) -> bool {
    forall|i: int, j: int| 0 <= i < xs.len() && 0 <= j < xs.len() && i != j ==> xs[i] != xs[j]
}

/// The sum of `f(0)`, .., `f(n - 1)`.
pub open spec fn gf_sum(f: spec_fn(int) -> u8, n: nat) -> u8
    decreases n,
{
    if n == 0 {
        0
    } else {
        gf_sum(f, (n - 1) as nat) ^ f(n - 1)
    }
}

/// The factor that the point `l` brings to the weight of the point `j`.
pub open spec fn basis_factor(xs: Seq<u8>, j: int, l: int) -> u8 {
    if l == j {
        1
    } else {
        gf_div(xs[l], xs[l] ^ xs[j])
    }
}

/// The product of the factors that the first `n` points bring to the weight
/// of the point `j`.
pub open spec fn weight_upto(xs: Seq<u8>, j: int, n: nat) -> u8
    decreases n,
{
    if n == 0 {
        1
    } else {
        gf_mul(weight_upto(xs, j, (n - 1) as nat), basis_factor(xs, j, n - 1))
    }
}

/// The value at zero of the Lagrange basis polynomial of the point `j`:
/// the product, over all other points `l`, of `xs[l] / (xs[l] - xs[j])`.
pub open spec fn weight(xs: Seq<u8>, j: int) -> u8 {
    weight_upto(xs, j, xs.len())
}

/// The summand of the point `j` in the interpolation.
pub open spec fn interp_term(xs: Seq<u8>, ys: Seq<u8>) -> spec_fn(int) -> u8 {
    |j: int| gf_mul(ys[j], weight(xs, j))
}

/// The value at zero of the polynomial of least degree that takes the value
/// `ys[j]` at each point `xs[j]`.
pub open spec fn interpolate(xs: Seq<u8>, ys: Seq<u8>) -> u8 {
    gf_sum(interp_term(xs, ys), xs.len())
}

/// The summand of the point `j`, times the distance of that point from `c`.
pub open spec fn gap_term(xs: Seq<u8>, ys: Seq<u8>, c: u8) -> spec_fn(int) -> u8 {
    |j: int| gf_mul(gf_mul(ys[j], weight(xs, j)), c ^ xs[j])
}

/// The quotient of the polynomial `c` by `x - a`.
pub open spec fn quotient(c: Seq<u8>, a: u8) -> Seq<u8>
    decreases c.len(),
{
    if c.len() <= 1 {
        Seq::empty()
    } else {
        seq![poly_eval(c.drop_first(), a)] + quotient(c.drop_first(), a)
    }
}

proof fn lemma_sum_pointwise(f: spec_fn(int) -> u8, g: spec_fn(int) -> u8, n: nat)
    requires
        forall|j: int| 0 <= j < n ==> #[trigger] f(j) == g(j),
    ensures
        gf_sum(f, n) == gf_sum(g, n),
    decreases n,
{
    if n > 0 {
        lemma_sum_pointwise(f, g, (n - 1) as nat);
    }
}

proof fn lemma_sum_zero(f: spec_fn(int) -> u8, n: nat)
    requires
        forall|j: int| 0 <= j < n ==> #[trigger] f(j) == 0,
    ensures
        gf_sum(f, n) == 0,
    decreases n,
{
    if n > 0 {
        lemma_sum_zero(f, (n - 1) as nat);
        lemma_xor_laws(0, 0, 0);
    }
}

proof fn lemma_sum_xor(
    f: spec_fn(int) -> u8,
    g: spec_fn(int) -> u8,
    h: spec_fn(int) -> u8,
    n: nat,
)
    requires
        forall|j: int| 0 <= j < n ==> #[trigger] h(j) == f(j) ^ g(j),
    ensures
        gf_sum(h, n) == gf_sum(f, n) ^ gf_sum(g, n),
    decreases n,
{
    if n == 0 {
        lemma_xor_laws(0, 0, 0);
    } else {
        let k = (n - 1) as nat;
        lemma_sum_xor(f, g, h, k);
        let p = gf_sum(f, k);
        let q = gf_sum(g, k);
        let r = f(n - 1);
        let s = g(n - 1);
        assert((p ^ q) ^ (r ^ s) == (p ^ r) ^ (q ^ s)) by (bit_vector);
    }
}

proof fn lemma_sum_scale(f: spec_fn(int) -> u8, g: spec_fn(int) -> u8, c: u8, n: nat)
    requires
        forall|j: int| 0 <= j < n ==> #[trigger] g(j) == gf_mul(c, f(j)),
    ensures
        gf_sum(g, n) == gf_mul(c, gf_sum(f, n)),
    decreases n,
{
    if n == 0 {
        lemma_mul_unit(c);
    } else {
        let k = (n - 1) as nat;
        lemma_sum_scale(f, g, c, k);
        lemma_mul_distributive(c, gf_sum(f, k), f(n - 1));
    }
}

proof fn lemma_sum_shift(f: spec_fn(int) -> u8, g: spec_fn(int) -> u8, n: nat)
    requires
        f(0) == 0,
        forall|j: int| 0 <= j < n ==> #[trigger] g(j) == f(j + 1),
    ensures
        gf_sum(f, n + 1) == gf_sum(g, n),
    decreases n,
{
    if n == 0 {
        lemma_xor_laws(0, 0, 0);
        assert(gf_sum(f, 1) == gf_sum(f, 0) ^ f(0));
    } else {
        lemma_sum_shift(f, g, (n - 1) as nat);
    }
}

proof fn lemma_weight_upto_prefix(xs: Seq<u8>, zs: Seq<u8>, j: int, n: nat)
    requires
        n <= xs.len(),
        n <= zs.len(),
        0 <= j < xs.len(),
        0 <= j < zs.len(),
        xs[j] == zs[j],
        forall|l: int| 0 <= l < n ==> xs[l] == zs[l],
    ensures
        weight_upto(xs, j, n) == weight_upto(zs, j, n),
    decreases n,
{
    if n > 0 {
        lemma_weight_upto_prefix(xs, zs, j, (n - 1) as nat);
    }
}

proof fn lemma_weight_upto_shift(xs: Seq<u8>, j: int, n: nat)
    requires
        1 <= j < xs.len(),
        1 <= n <= xs.len(),
    ensures
        weight_upto(xs, j, n) == gf_mul(
            weight_upto(xs.drop_first(), j - 1, (n - 1) as nat),
            basis_factor(xs, j, 0),
        ),
    decreases n,
{
    let rest = xs.drop_first();
    let first = basis_factor(xs, j, 0);
    if n == 1 {
        assert(weight_upto(xs, j, 0) == 1);
        assert(weight_upto(xs, j, 1) == gf_mul(weight_upto(xs, j, 0), first));
        assert(weight_upto(rest, j - 1, 0) == 1);
    } else {
        lemma_weight_upto_shift(xs, j, (n - 1) as nat);
        let before = weight_upto(rest, j - 1, (n - 2) as nat);
        let here = basis_factor(xs, j, n - 1);
        assert(here == basis_factor(rest, j - 1, n - 2));
        assert(weight_upto(rest, j - 1, (n - 1) as nat) == gf_mul(before, here));
        assert(weight_upto(xs, j, n) == gf_mul(weight_upto(xs, j, (n - 1) as nat), here));
        lemma_mul_swap(before, first, here);
    }
}

proof fn lemma_weight_drop_last(xs: Seq<u8>, j: int)
    requires
        0 <= j < xs.len() - 1,
        xs[j] != xs.last(),
    ensures
        gf_mul(weight(xs, j), xs.last() ^ xs[j]) == gf_mul(
            xs.last(),
            weight(xs.drop_last(), j),
        ),
{
    let m = xs.len();
    let a = xs.last();
    let d = a ^ xs[j];
    let before = weight_upto(xs, j, (m - 1) as nat);
    lemma_weight_upto_prefix(xs, xs.drop_last(), j, (m - 1) as nat);
    lemma_xor_laws(a, xs[j], 0);
    assert(weight(xs, j) == gf_mul(before, gf_div(a, d)));
    lemma_mul_associative(before, gf_div(a, d), d);
    lemma_div_cancel(a, d);
    lemma_mul_commutative(before, a);
}

proof fn lemma_weight_drop_first(xs: Seq<u8>, j: int)
    requires
        1 <= j < xs.len(),
        xs[j] != xs[0],
    ensures
        gf_mul(weight(xs, j), xs[0] ^ xs[j]) == gf_mul(xs[0], weight(xs.drop_first(), j - 1)),
{
    let b = xs[0];
    let d = b ^ xs[j];
    let after = weight(xs.drop_first(), j - 1);
    lemma_weight_upto_shift(xs, j, xs.len());
    lemma_xor_laws(b, xs[j], 0);
    assert(weight(xs, j) == gf_mul(after, gf_div(b, d)));
    lemma_mul_associative(after, gf_div(b, d), d);
    lemma_div_cancel(b, d);
    lemma_mul_commutative(after, b);
}

/// Weighting each summand by its distance from the last point leaves the
/// interpolation through the other points, times the last point.
proof fn lemma_gap_last(xs: Seq<u8>, ys: Seq<u8>)
    requires
        xs.len() >= 1,
        ys.len() == xs.len(),
        distinct(xs),
    ensures
        gf_sum(gap_term(xs, ys, xs.last()), xs.len()) == gf_mul(
            xs.last(),
            interpolate(xs.drop_last(), ys.drop_last()),
        ),
{
    let m = xs.len();
    let k = (m - 1) as nat;
    let a = xs.last();
    let f = gap_term(xs, ys, a);
    let g = interp_term(xs.drop_last(), ys.drop_last());
    lemma_xor_laws(a, a, 0);
    lemma_mul_unit(gf_mul(ys[m - 1], weight(xs, m - 1)));
    assert(f(m - 1) == 0);
    lemma_xor_laws(gf_sum(f, k), 0, 0);
    assert(gf_sum(f, m) == gf_sum(f, k));
    assert forall|j: int| 0 <= j < k implies #[trigger] f(j) == gf_mul(a, g(j)) by {
        lemma_weight_drop_last(xs, j);
        lemma_mul_associative(ys[j], weight(xs, j), a ^ xs[j]);
        lemma_mul_associative(ys[j], a, weight(xs.drop_last(), j));
        lemma_mul_commutative(ys[j], a);
        lemma_mul_associative(a, ys[j], weight(xs.drop_last(), j));
    }
    lemma_sum_scale(g, f, a, k);
}

/// Weighting each summand by its distance from the first point leaves the
/// interpolation through the other points, times the first point.
proof fn lemma_gap_first(xs: Seq<u8>, ys: Seq<u8>)
    requires
        xs.len() >= 1,
        ys.len() == xs.len(),
        distinct(xs),
    ensures
        gf_sum(gap_term(xs, ys, xs[0]), xs.len()) == gf_mul(
            xs[0],
            interpolate(xs.drop_first(), ys.drop_first()),
        ),
{
    let m = xs.len();
    let k = (m - 1) as nat;
    let b = xs[0];
    let f = gap_term(xs, ys, b);
    let g = interp_term(xs.drop_first(), ys.drop_first());
    let h = |j: int| f(j + 1);
    lemma_xor_laws(b, b, 0);
    lemma_mul_unit(gf_mul(ys[0], weight(xs, 0)));
    assert(f(0) == 0);
    lemma_sum_shift(f, h, k);
    assert forall|j: int| 0 <= j < k implies #[trigger] h(j) == gf_mul(b, g(j)) by {
        let i = j + 1;
        lemma_weight_drop_first(xs, i);
        lemma_mul_associative(ys[i], weight(xs, i), b ^ xs[i]);
        lemma_mul_associative(ys[i], b, weight(xs.drop_first(), j));
        lemma_mul_commutative(ys[i], b);
        lemma_mul_associative(b, ys[i], weight(xs.drop_first(), j));
    }
    lemma_sum_scale(g, h, b, k);
}

/// The two weighted sums above add up to the interpolation times the
/// distance between the two points.
proof fn lemma_gap_pair(xs: Seq<u8>, ys: Seq<u8>, c: u8, d: u8)
    requires
        ys.len() == xs.len(),
    ensures
        gf_sum(gap_term(xs, ys, c), xs.len()) ^ gf_sum(gap_term(xs, ys, d), xs.len()) == gf_mul(
            c ^ d,
            interpolate(xs, ys),
        ),
{
    let m = xs.len();
    let f = gap_term(xs, ys, c);
    let g = gap_term(xs, ys, d);
    let t = interp_term(xs, ys);
    let h = |j: int| gf_mul(c ^ d, t(j));
    assert forall|j: int| 0 <= j < m implies #[trigger] h(j) == f(j) ^ g(j) by {
        let x = xs[j];
        assert((c ^ x) ^ (d ^ x) == c ^ d) by (bit_vector);
        lemma_mul_distributive(t(j), c ^ x, d ^ x);
        lemma_mul_commutative(t(j), c ^ d);
    }
    lemma_sum_xor(f, g, h, m);
    lemma_sum_scale(t, h, c ^ d, m);
}

/// The weights of distinct points add up to one.
pub proof fn lemma_weights_sum_to_one(xs: Seq<u8>)
    requires
        xs.len() >= 1,
        distinct(xs),
    ensures
        interpolate(xs, ones(xs.len())) == 1,
    decreases xs.len(),
{
    let m = xs.len();
    let ones = ones(m);
    if m == 1 {
        let t = interp_term(xs, ones);
        assert(weight_upto(xs, 0, 0) == 1);
        assert(weight(xs, 0) == gf_mul(weight_upto(xs, 0, 0), basis_factor(xs, 0, 0)));
        lemma_mul_unit(1);
        assert(t(0) == 1);
        assert(gf_sum(t, 1) == gf_sum(t, 0) ^ t(0));
        lemma_xor_laws(1, 0, 0);
    } else {
        let a = xs.last();
        let b = xs[0];
        let fewer = self::ones((m - 1) as nat);
        assert(ones.drop_last() =~= fewer);
        assert(ones.drop_first() =~= fewer);
        assert(distinct(xs.drop_last()));
        assert(distinct(xs.drop_first())) by {
            assert forall|i: int, j: int|
                0 <= i < xs.drop_first().len() && 0 <= j < xs.drop_first().len() && i
                    != j implies xs.drop_first()[i] != xs.drop_first()[j] by {
                assert(xs.drop_first()[i] == xs[i + 1]);
                assert(xs.drop_first()[j] == xs[j + 1]);
            }
        }
        lemma_weights_sum_to_one(xs.drop_last());
        lemma_weights_sum_to_one(xs.drop_first());
        lemma_gap_last(xs, ones);
        lemma_gap_first(xs, ones);
        lemma_gap_pair(xs, ones, a, b);
        lemma_mul_unit(a);
        lemma_mul_unit(b);
        lemma_mul_unit(a ^ b);
        lemma_xor_laws(a, b, 0);
        assert(a != b);
        lemma_mul_cancel(a ^ b, interpolate(xs, ones), 1);
    }
}

/// Division of a polynomial by `x - a`, with the value at `a` as remainder.
pub proof fn lemma_quotient(c: Seq<u8>, a: u8, z: u8)
    ensures
        poly_eval(c, z) == poly_eval(c, a) ^ gf_mul(z ^ a, poly_eval(quotient(c, a), z)),
        c.len() >= 1 ==> quotient(c, a).len() == c.len() - 1,
        c.len() == 0 ==> quotient(c, a).len() == 0,
    decreases c.len(),
{
    if c.len() == 0 {
        lemma_mul_unit(z ^ a);
        lemma_xor_laws(0, 0, 0);
    } else {
        let rest = c.drop_first();
        lemma_quotient(rest, a, z);
        if c.len() == 1 {
            assert(poly_eval(rest, z) == 0);
            assert(poly_eval(rest, a) == 0);
            lemma_mul_unit(z);
            lemma_mul_unit(a);
            lemma_mul_unit(z ^ a);
            lemma_xor_laws(c[0], 0, 0);
            lemma_xor_laws(c[0] ^ 0, 0, 0);
        } else {
            let q = quotient(c, a);
            let e = poly_eval(rest, a);
            let below = poly_eval(quotient(rest, a), z);
            assert(q.drop_first() =~= quotient(rest, a));
            assert(q[0] == e);
            assert(poly_eval(q, z) == e ^ gf_mul(z, below));
            assert(poly_eval(rest, z) == e ^ gf_mul(z ^ a, below));
            lemma_division_step(c[0], a, z, e, below);
        }
    }
}

proof fn lemma_division_step(c0: u8, a: u8, z: u8, e: u8, below: u8)
    ensures
        c0 ^ gf_mul(z, e ^ gf_mul(z ^ a, below)) == (c0 ^ gf_mul(a, e)) ^ gf_mul(
            z ^ a,
            e ^ gf_mul(z, below),
        ),
{
    let ze = gf_mul(z, e);
    let ae = gf_mul(a, e);
    let w = gf_mul(z, gf_mul(z ^ a, below));
    lemma_mul_distributive(z, e, gf_mul(z ^ a, below));
    lemma_mul_distributive(z ^ a, e, gf_mul(z, below));
    lemma_mul_distributive(e, z, a);
    lemma_mul_commutative(z, e);
    lemma_mul_commutative(a, e);
    lemma_mul_commutative(z ^ a, e);
    lemma_mul_associative(z, z ^ a, below);
    lemma_mul_associative(z ^ a, z, below);
    lemma_mul_commutative(z, z ^ a);
    assert(gf_mul(z ^ a, gf_mul(z, below)) == w);
    assert(gf_mul(z ^ a, e) == ze ^ ae);
    assert(c0 ^ (ze ^ w) == (c0 ^ ae) ^ ((ze ^ ae) ^ w)) by (bit_vector);
}

/// Interpolation at zero through the values of a polynomial, at as many
/// distinct points as it has coefficients or more, gives its constant term.
pub proof fn lemma_interpolation_recovers(xs: Seq<u8>, c: Seq<u8>)
    requires
        distinct(xs),
        c.len() <= xs.len(),
    ensures
        interpolate(xs, poly_values(c, xs)) == poly_eval(c, 0),
        c.len() >= 1 ==> poly_eval(c, 0) == c[0],
    decreases xs.len(),
{
    let m = xs.len();
    let ys = poly_values(c, xs);
    if c.len() >= 1 {
        lemma_mul_unit(poly_eval(c.drop_first(), 0));
        lemma_xor_laws(c[0], 0, 0);
    }
    if c.len() == 0 {
        let t = interp_term(xs, ys);
        assert forall|j: int| 0 <= j < m implies #[trigger] t(j) == 0 by {
            lemma_mul_unit(weight(xs, j));
        }
        lemma_sum_zero(t, m);
    } else {
        let a = xs.last();
        let q = quotient(c, a);
        let at_a = poly_eval(c, a);
        let fewer = xs.drop_last();
        let ones = ones(m);
        let qs = poly_values(q, xs);
        lemma_quotient(c, a, 0);
        assert(distinct(fewer));
        lemma_interpolation_recovers(fewer, q);
        assert(qs.drop_last() =~= poly_values(q, fewer));
        lemma_gap_last(xs, qs);
        lemma_weights_sum_to_one(xs);
        let t = interp_term(xs, ys);
        let unit = interp_term(xs, ones);
        let scaled = |j: int| gf_mul(at_a, unit(j));
        let gap = gap_term(xs, qs, a);
        assert forall|j: int| 0 <= j < m implies #[trigger] t(j) == scaled(j) ^ gap(j) by {
            let w = weight(xs, j);
            let x = xs[j];
            let qx = poly_eval(q, x);
            lemma_quotient(c, a, x);
            lemma_xor_laws(x, a, 0);
            assert(ys[j] == at_a ^ gf_mul(x ^ a, qx));
            lemma_mul_distributive(w, at_a, gf_mul(x ^ a, qx));
            lemma_mul_commutative(w, ys[j]);
            lemma_mul_commutative(w, at_a);
            lemma_mul_commutative(w, gf_mul(x ^ a, qx));
            lemma_mul_unit(w);
            lemma_mul_commutative(x ^ a, qx);
            lemma_mul_swap(qx, x ^ a, w);
        }
        lemma_sum_xor(scaled, gap, t, m);
        lemma_sum_scale(unit, scaled, at_a, m);
        lemma_mul_unit(at_a);
        lemma_xor_laws(a, 0, 0);
    }
}

/// Evaluates a polynomial at `x`, by Horner's rule.
pub fn evaluate(coefficients: &Vec<u8>, x: u8) -> (r: u8)
    ensures
        r == poly_eval(coefficients@, x),
{
    let n = coefficients.len();
    let mut acc: u8 = 0;
    let mut i: usize = n;
    assert(coefficients@.subrange(n as int, n as int).len() == 0);
    while i > 0
        invariant
            i <= n,
            n == coefficients.len(),
            acc == poly_eval(coefficients@.subrange(i as int, n as int), x),
        decreases i,
    {
        i = i - 1;
        proof {
            let here = coefficients@.subrange(i as int, n as int);
            assert(here.drop_first() =~= coefficients@.subrange(i + 1, n as int));
        }
        acc = coefficients[i] ^ multiply(x, acc);
    }
    assert(coefficients@.subrange(0, n as int) =~= coefficients@);
    acc
}

/// Computes the Lagrange weight at zero of the point `xs[j]`.
pub fn lagrange_weight(xs: &Vec<u8>, j: usize) -> (r: u8)
    requires
        j < xs.len(),
    ensures
        r == weight(xs@, j as int),
{
    let n = xs.len();
    let mut acc: u8 = 1;
    let mut l: usize = 0;
    while l < n
        invariant
            l <= n,
            n == xs.len(),
            j < n,
            acc == weight_upto(xs@, j as int, l as nat),
        decreases n - l,
    {
        if l != j {
            acc = multiply(acc, divide(xs[l], xs[l] ^ xs[j]));
        } else {
            proof {
                lemma_mul_unit(acc);
            }
        }
        l = l + 1;
    }
    acc
}

/// Computes the Lagrange weights at zero of all the points.
pub fn lagrange_weights(xs: &Vec<u8>) -> (r: Vec<u8>)
    ensures
        r.len() == xs.len(),
        forall|j: int| 0 <= j < xs.len() ==> r[j] == weight(xs@, j),
{
    let n = xs.len();
    let mut weights: Vec<u8> = Vec::with_capacity(n);
    let mut j: usize = 0;
    while j < n
        invariant
            j <= n,
            n == xs.len(),
            weights.len() == j,
            forall|i: int| 0 <= i < j ==> weights[i] == weight(xs@, i),
        decreases n - j,
    {
        let w = lagrange_weight(xs, j);
        weights.push(w);
        j = j + 1;
    }
    weights
}

/// Interpolates at zero through the points `(xs[j], ys[j])`.
pub fn interpolate_at_zero(xs: &Vec<u8>, ys: &Vec<u8>) -> (r: u8)
    requires
        xs.len() == ys.len(),
    ensures
        r == interpolate(xs@, ys@),
{
    let n = xs.len();
    let weights = lagrange_weights(xs);
    let mut acc: u8 = 0;
    let mut j: usize = 0;
    while j < n
        invariant
            j <= n,
            n == xs.len(),
            n == ys.len(),
            weights.len() == n,
            forall|i: int| 0 <= i < n ==> weights[i] == weight(xs@, i),
            acc == gf_sum(interp_term(xs@, ys@), j as nat),
        decreases n - j,
    {
        acc = acc ^ multiply(ys[j], weights[j]);
        j = j + 1;
    }
    acc
}

} // verus!
