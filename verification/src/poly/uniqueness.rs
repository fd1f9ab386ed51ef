//! A polynomial over a prime field with more roots than its degree allows
//! is zero; so two polynomials of degree below `n` that agree at `n`
//! points are the same, and interpolation finds the polynomial that the
//! values came from.
use vstd::prelude::*;
use vstd::arithmetic::div_mod::*;
use vstd::arithmetic::mul::*;

use crate::field::arith::{coprime, inv_mod, is_prime, lemma_cancel_factor, lemma_inverse_exists};
use crate::poly::algebra::{
    coeff, degree, difference, distinct, interpolates, invertible_differences, lagrange,
    lagrange_numerator, lagrange_sum, lagrange_weight, lemma_degree, lemma_eval_add,
    lemma_eval_mul_linear, lemma_eval_scale, lemma_eval_step, lemma_eval_sub, lemma_weight_step,
    mul_linear, poly_add, poly_eval, poly_scale, poly_shift, poly_sub, reduced, same_poly, tail,
};

verus! {

/// The quotient of `h` by `x - r`, by Horner's scheme: the coefficient at
/// `i` is the value at `r` of what stands behind place `i` of `h`.
pub open spec fn linear_quotient(h: Seq<int>, r: int, p: int) -> Seq<int> {
    Seq::new((h.len() - 1) as nat, |i: int| poly_eval(h.skip(i + 1), r, p))
}

/// A polynomial that vanishes at `r` is `x - r` times its quotient.
proof fn lemma_factor(h: Seq<int>, r: int, p: int)
    requires
        p >= 2,
        h.len() >= 1,
        reduced(h, p),
        poly_eval(h, r, p) == 0,
    ensures
        mul_linear(linear_quotient(h, r, p), r, p) == h,
{
    let q = linear_quotient(h, r, p);
    let m = mul_linear(q, r, p);
    let n = h.len() as int;
    assert(m.len() == n);
    assert forall|k: int| 0 <= k < n implies m[k] == h[k] by {
        let lo = coeff(poly_shift(q), k);
        let hi = coeff(poly_scale(q, r, p), k);
        assert(m[k] == (lo - hi) % p);
        // what stands behind place k, by Horner: h[k] + r * (what stands behind k + 1)
        let behind = poly_eval(h.skip(k + 1), r, p);
        assert(h.skip(k).skip(1) =~= h.skip(k + 1));
        assert(h.skip(k)[0] == h[k]);
        let here = poly_eval(h.skip(k), r, p);
        assert(here == (h[k] + r * behind) % p);
        lemma_small_mod(h[k] as nat, p as nat);
        if k == n - 1 {
            assert(h.skip(k + 1) =~= Seq::<int>::empty());
            lemma_mul_basics(r);
            assert(hi == 0);
            if k == 0 {
                assert(h.skip(0) =~= h);
                assert(lo == 0);
                assert(here == 0);
            } else {
                assert(lo == q[k - 1]);
                assert(q[k - 1] == here);
            }
        } else {
            assert(q[k] == behind);
            assert(hi == (q[k] * r) % p);
            lemma_mul_is_commutative(q[k], r);
            if k == 0 {
                assert(h.skip(0) =~= h);
                assert(lo == 0);
                // 0 = (h[0] + r * behind) % p, so h[0] = (0 - r * behind) % p
                lemma_sub_mod_noop_right(0, r * behind, p);
                lemma_mod_equivalence(h[k], 0 - r * behind, p);
            } else {
                assert(lo == q[k - 1]);
                assert(q[k - 1] == here);
                lemma_sub_mod_noop(h[k] + r * behind, r * behind, p);
            }
        }
    }
    assert(m =~= h);
}

/// A polynomial over a prime field with at least as many distinct roots as
/// coefficients is zero.
pub proof fn lemma_roots_force_zero(h: Seq<int>, roots: Seq<int>, p: int)
    requires
        is_prime(p),
        reduced(h, p),
        reduced(roots, p),
        distinct(roots),
        h.len() <= roots.len(),
        forall|k: int| 0 <= k < roots.len() ==> #[trigger] poly_eval(h, roots[k], p) == 0,
    ensures
        forall|i: int| 0 <= i < h.len() ==> h[i] == 0,
    decreases roots.len(),
{
    if h.len() > 0 {
        let r = roots.last();
        let rest = roots.drop_last();
        let q = linear_quotient(h, r, p);
        assert(poly_eval(h, roots[roots.len() - 1], p) == 0);
        lemma_factor(h, r, p);
        assert(reduced(q, p)) by {
            assert forall|i: int| 0 <= i < q.len() implies 0 <= #[trigger] q[i] < p by {
                lemma_eval_step(h.skip(i + 1), r, p);
                lemma_mod_bound(
                    coeff(h.skip(i + 1), 0) + r * poly_eval(tail(h.skip(i + 1)), r, p),
                    p,
                );
            }
        }
        assert forall|k: int| 0 <= k < rest.len() implies #[trigger] poly_eval(q, rest[k], p)
            == 0 by {
            let x = rest[k];
            assert(x == roots[k]);
            assert(poly_eval(h, roots[k], p) == 0);
            lemma_eval_mul_linear(q, r, x, p);
            // distinct residues differ by no multiple of p
            assert(roots[k] != roots[roots.len() - 1]);
            assert(0 <= roots[k] < p && 0 <= roots[roots.len() - 1] < p);
            if (x - r) % p == 0 {
                lemma_mod_equivalence(x, r, p);
                lemma_small_mod(x as nat, p as nat);
                lemma_small_mod(r as nat, p as nat);
            }
            lemma_cancel_factor(poly_eval(q, x, p), x - r, p);
            lemma_eval_step(q, x, p);
            lemma_mod_bound(coeff(q, 0) + x * poly_eval(tail(q), x, p), p);
            lemma_small_mod(poly_eval(q, x, p) as nat, p as nat);
        }
        assert(distinct(rest));
        assert(reduced(rest, p));
        lemma_roots_force_zero(q, rest, p);
        // h = (x - r) * q with q zero
        let m = mul_linear(q, r, p);
        assert forall|i: int| 0 <= i < h.len() implies h[i] == 0 by {
            assert(m[i] == (coeff(poly_shift(q), i) - coeff(poly_scale(q, r, p), i)) % p);
            lemma_mul_basics(r);
            lemma_small_mod(0, p as nat);
            if 0 <= i - 1 < q.len() {
                assert(q[i - 1] == 0);
            }
            if i < q.len() {
                assert(q[i] == 0);
            }
        }
    }
}

/// Two polynomials with at most `n` coefficients that take the same values
/// at `n` distinct points of a prime field are the same polynomial.
pub proof fn lemma_agreeing_polynomials(a: Seq<int>, b: Seq<int>, points: Seq<int>, p: int)
    requires
        is_prime(p),
        reduced(a, p),
        reduced(b, p),
        reduced(points, p),
        distinct(points),
        a.len() <= points.len(),
        b.len() <= points.len(),
        forall|k: int|
            0 <= k < points.len() ==> #[trigger] poly_eval(a, points[k], p) == poly_eval(
                b,
                points[k],
                p,
            ),
    ensures
        same_poly(a, b),
{
    let h = poly_sub(a, b, p);
    assert(reduced(h, p)) by {
        assert forall|i: int| 0 <= i < h.len() implies 0 <= #[trigger] h[i] < p by {
            lemma_mod_bound(coeff(a, i) - coeff(b, i), p);
        }
    }
    assert forall|k: int| 0 <= k < points.len() implies #[trigger] poly_eval(h, points[k], p)
        == 0 by {
        lemma_eval_sub(a, b, points[k], p);
        assert(poly_eval(a, points[k], p) == poly_eval(b, points[k], p));
        lemma_small_mod(0, p as nat);
    }
    lemma_roots_force_zero(h, points, p);
    assert forall|i: int| 0 <= i implies #[trigger] coeff(a, i) == coeff(b, i) by {
        if i < h.len() {
            assert(h[i] == 0);
            assert(h[i] == (coeff(a, i) - coeff(b, i)) % p);
            lemma_mod_equivalence(coeff(a, i), coeff(b, i), p);
            if i < a.len() {
                lemma_small_mod(a[i] as nat, p as nat);
            }
            if i < b.len() {
                lemma_small_mod(b[i] as nat, p as nat);
            }
            lemma_small_mod(0, p as nat);
        }
    }
}

/// The values of a polynomial at the points of a domain.
pub open spec fn evaluations(poly: Seq<int>, domain: Seq<int>, p: int) -> Seq<int> {
    Seq::new(domain.len(), |k: int| poly_eval(poly, domain[k], p))
}

/// Interpolation finds the polynomial: a polynomial that interpolates, at
/// `n` distinct points of a prime field, the values of a polynomial with
/// at most `n` coefficients is that polynomial.
pub proof fn lemma_interpolation_finds(found: Seq<int>, poly: Seq<int>, domain: Seq<int>, p: int)
    requires
        is_prime(p),
        reduced(found, p),
        reduced(poly, p),
        reduced(domain, p),
        distinct(domain),
        found.len() <= domain.len(),
        poly.len() <= domain.len(),
        interpolates(found, domain, evaluations(poly, domain, p), p),
    ensures
        same_poly(found, poly),
{
    assert forall|k: int| 0 <= k < domain.len() implies #[trigger] poly_eval(found, domain[k], p)
        == poly_eval(poly, domain[k], p) by {
        assert(evaluations(poly, domain, p)[k] == poly_eval(poly, domain[k], p));
    }
    lemma_agreeing_polynomials(found, poly, domain, p);
}

/// The numerator of a Lagrange term has one coefficient more than
/// factors, all reduced, and vanishes at the points of its factors.
pub proof fn lemma_numerator(d: Seq<int>, i: int, j: nat, p: int)
    requires
        p >= 2,
        0 <= i < d.len(),
        j <= d.len(),
    ensures
        lagrange_numerator(d, i, j, p).len() == (if j <= i {
            j + 1
        } else {
            j
        }),
        reduced(lagrange_numerator(d, i, j, p), p),
        forall|k: int|
            0 <= k < j && k != i ==> #[trigger] poly_eval(lagrange_numerator(d, i, j, p), d[k], p)
                == 0,
    decreases j,
{
    lemma_small_mod(1, p as nat);
    lemma_small_mod(0, p as nat);
    if j > 0 {
        let before = lagrange_numerator(d, i, (j - 1) as nat, p);
        lemma_numerator(d, i, (j - 1) as nat, p);
        if j - 1 != i {
            let root = d[j - 1];
            let after = mul_linear(before, root, p);
            assert forall|m: int| 0 <= m < after.len() implies 0 <= #[trigger] after[m] < p by {
                lemma_mod_bound(
                    coeff(poly_shift(before), m) - coeff(poly_scale(before, root, p), m),
                    p,
                );
            }
            assert forall|k: int| 0 <= k < j && k != i implies #[trigger] poly_eval(
                after,
                d[k],
                p,
            ) == 0 by {
                lemma_eval_mul_linear(before, root, d[k], p);
                if k == j - 1 {
                    lemma_mul_basics(poly_eval(before, d[k], p));
                } else {
                    assert(poly_eval(before, d[k], p) == 0);
                    lemma_mul_basics(d[k] - root);
                }
            }
        }
    }
}

/// The weight of a Lagrange term is a residue, and times the value of the
/// numerator at the point of the term it is the value asked for there.
pub proof fn lemma_weight(d: Seq<int>, v: Seq<int>, i: int, j: nat, p: int)
    requires
        p >= 2,
        0 <= i < d.len(),
        j <= d.len(),
        d.len() == v.len(),
        reduced(v, p),
        invertible_differences(d, p),
    ensures
        0 <= lagrange_weight(d, v, i, j, p) < p,
        (poly_eval(lagrange_numerator(d, i, j, p), d[i], p) * lagrange_weight(d, v, i, j, p)) % p
            == v[i],
    decreases j,
{
    if j == 0 {
        let one = lagrange_numerator(d, i, 0, p);
        assert(one.skip(1) =~= Seq::<int>::empty());
        assert(poly_eval(one.skip(1), d[i], p) == 0);
        lemma_mul_basics(d[i]);
        lemma_small_mod(1, p as nat);
        assert(poly_eval(one, d[i], p) == 1);
        lemma_mul_basics(v[i]);
        lemma_small_mod(v[i] as nat, p as nat);
    } else {
        lemma_weight(d, v, i, (j - 1) as nat, p);
        if j - 1 != i {
            let before = lagrange_numerator(d, i, (j - 1) as nat, p);
            let w = lagrange_weight(d, v, i, (j - 1) as nat, p);
            let gap = difference(d, i, j - 1, p);
            let inv = inv_mod(gap, p);
            lemma_mod_bound(d[i] - d[j - 1], p);
            assert(coprime(difference(d, i, j - 1, p), p));
            lemma_inverse_exists(gap, p);
            lemma_eval_mul_linear(before, d[j - 1], d[i], p);
            lemma_mod_twice(d[i] - d[j - 1], p);
            lemma_weight_step(poly_eval(before, d[i], p), d[i] - d[j - 1], w, inv, v[i], p);
            lemma_mod_bound(w * inv, p);
        }
    }
}

/// The sum of the first `i` terms of Lagrange's formula has as many
/// reduced coefficients as there are points, and takes the values asked
/// for at the first `i` points and zero at the others.
pub proof fn lemma_lagrange_sum(d: Seq<int>, v: Seq<int>, i: nat, p: int)
    requires
        p >= 2,
        i <= d.len(),
        d.len() == v.len(),
        reduced(v, p),
        invertible_differences(d, p),
    ensures
        lagrange_sum(d, v, i, p).len() == d.len(),
        reduced(lagrange_sum(d, v, i, p), p),
        forall|k: int|
            0 <= k < d.len() ==> #[trigger] poly_eval(lagrange_sum(d, v, i, p), d[k], p) == (if k
                < i {
                v[k]
            } else {
                0
            }),
    decreases i,
{
    let n = d.len();
    lemma_small_mod(0, p as nat);
    if i == 0 {
        let zero = lagrange_sum(d, v, 0, p);
        assert forall|k: int| 0 <= k < n implies #[trigger] poly_eval(zero, d[k], p) == 0 by {
            lemma_eval_of_zeros(zero, d[k], p);
        }
    } else {
        let before = lagrange_sum(d, v, (i - 1) as nat, p);
        let top = lagrange_numerator(d, i - 1, n, p);
        let w = lagrange_weight(d, v, i - 1, n, p);
        let term = poly_scale(top, w, p);
        let after = poly_add(before, term, p);
        lemma_lagrange_sum(d, v, (i - 1) as nat, p);
        lemma_numerator(d, i - 1, n, p);
        lemma_weight(d, v, i - 1, n, p);
        assert forall|m: int| 0 <= m < after.len() implies 0 <= #[trigger] after[m] < p by {
            lemma_mod_bound(coeff(before, m) + coeff(term, m), p);
        }
        assert forall|k: int| 0 <= k < n implies #[trigger] poly_eval(after, d[k], p) == (if k
            < i {
            v[k]
        } else {
            0
        }) by {
            lemma_eval_add(before, term, d[k], p);
            lemma_eval_scale(top, w, d[k], p);
            let en = poly_eval(top, d[k], p);
            assert(poly_eval(before, d[k], p) == (if k < i - 1 {
                v[k]
            } else {
                0
            }));
            lemma_small_mod(v[k] as nat, p as nat);
            if k == i - 1 {
                lemma_mul_is_commutative(w, en);
            } else {
                assert(en == 0);
                lemma_mul_basics(w);
            }
        }
    }
}

/// A polynomial of zeros has the value zero everywhere.
pub proof fn lemma_eval_of_zeros(a: Seq<int>, x: int, p: int)
    requires
        p > 0,
        forall|i: int| 0 <= i < a.len() ==> a[i] == 0,
    ensures
        poly_eval(a, x, p) == 0,
    decreases a.len(),
{
    if a.len() > 0 {
        lemma_eval_of_zeros(a.skip(1), x, p);
        lemma_mul_basics(x);
        lemma_small_mod(0, p as nat);
    }
}

/// Lagrange's formula interpolates: at points whose differences have
/// inverses, its polynomial has as many coefficients as there are points
/// and takes the values asked for.
pub proof fn lemma_lagrange_interpolates(d: Seq<int>, v: Seq<int>, p: int)
    requires
        p >= 2,
        d.len() == v.len(),
        reduced(v, p),
        invertible_differences(d, p),
    ensures
        lagrange(d, v, p).len() == d.len(),
        reduced(lagrange(d, v, p), p),
        interpolates(lagrange(d, v, p), d, v, p),
{
    lemma_lagrange_sum(d, v, d.len(), p);
}

/// Two sequences that spell the same polynomial have the same degree.
pub proof fn lemma_same_degree(a: Seq<int>, b: Seq<int>)
    requires
        same_poly(a, b),
    ensures
        degree(a) == degree(b),
{
    lemma_degree(a);
    lemma_degree(b);
    let da = degree(a);
    let db = degree(b);
    if da < db {
        assert(coeff(a, db) == coeff(b, db));
    } else if db < da {
        assert(coeff(a, da) == coeff(b, da));
    }
}

/// Interpolating the values of a polynomial that has at most as many
/// coefficients as there are points, at distinct points of a prime field,
/// gives a polynomial of its degree.
pub proof fn lemma_lagrange_of_evaluations(poly: Seq<int>, domain: Seq<int>, p: int)
    requires
        is_prime(p),
        reduced(poly, p),
        reduced(domain, p),
        distinct(domain),
        invertible_differences(domain, p),
        poly.len() <= domain.len(),
    ensures
        same_poly(lagrange(domain, evaluations(poly, domain, p), p), poly),
        degree(lagrange(domain, evaluations(poly, domain, p), p)) == degree(poly),
{
    let values = evaluations(poly, domain, p);
    assert(reduced(values, p)) by {
        assert forall|k: int| 0 <= k < values.len() implies 0 <= #[trigger] values[k] < p by {
            lemma_eval_step(poly, domain[k], p);
            lemma_mod_bound(coeff(poly, 0) + domain[k] * poly_eval(tail(poly), domain[k], p), p);
        }
    }
    lemma_lagrange_interpolates(domain, values, p);
    lemma_interpolation_finds(lagrange(domain, values, p), poly, domain, p);
    lemma_same_degree(lagrange(domain, values, p), poly);
}

} // verus!
