//! Why folding works: a codeword that holds the values of a polynomial on
//! a coset folds to the values, on the coset of the squares, of the
//! polynomial made of its even part and `alpha` times its odd part.
use vstd::prelude::*;
use vstd::arithmetic::div_mod::*;
use vstd::arithmetic::mul::*;
use vstd::arithmetic::power::*;

use crate::field::arith::{coprime, inv_mod, lemma_inverse_exists, pow_mod};
use crate::fri::prover::{fold_codeword, fold_point};
use crate::fri::{coset, domain_point};
use crate::poly::algebra::{
    lemma_cong_add, lemma_cong_mul, lemma_eval_add, lemma_eval_scale, poly_add, poly_eval,
    poly_scale,
};
use crate::poly::uniqueness::evaluations;

verus! {

/// The coefficients at the even places.
pub open spec fn even_part(f: Seq<int>) -> Seq<int> {
    Seq::new(((f.len() + 1) / 2) as nat, |k: int| f[2 * k])
}

/// The coefficients at the odd places.
pub open spec fn odd_part(f: Seq<int>) -> Seq<int> {
    Seq::new((f.len() / 2) as nat, |k: int| f[2 * k + 1])
}

/// The polynomial that a folding with `alpha` leaves: the even part plus
/// `alpha` times the odd part.
pub open spec fn folded_poly(f: Seq<int>, alpha: int, p: int) -> Seq<int> {
    poly_add(even_part(f), poly_scale(odd_part(f), alpha, p), p)
}

/// A polynomial is its even part at `x^2` plus `x` times its odd part at `x^2`.
pub proof fn lemma_split_eval(f: Seq<int>, x: int, p: int)
    requires
        p > 0,
    ensures
        poly_eval(f, x, p) == (poly_eval(even_part(f), (x * x) % p, p) + x * poly_eval(
            odd_part(f),
            (x * x) % p,
            p,
        )) % p,
    decreases f.len(),
{
    let y = (x * x) % p;
    let even = even_part(f);
    let odd = odd_part(f);
    lemma_small_mod(0, p as nat);
    if f.len() == 0 {
        lemma_mul_basics(x);
    } else if f.len() == 1 {
        assert(f.skip(1) =~= Seq::<int>::empty());
        assert(even.skip(1) =~= Seq::<int>::empty());
        assert(odd =~= Seq::<int>::empty());
        lemma_mul_basics(x);
        lemma_mul_basics(y);
        lemma_mod_twice(f[0], p);
        assert(poly_eval(f.skip(1), x, p) == 0);
        assert(poly_eval(even.skip(1), y, p) == 0);
        assert(poly_eval(odd, y, p) == 0);
        assert(poly_eval(f, x, p) == (f[0] + x * 0) % p);
        assert(even[0] == f[0]);
        assert(poly_eval(even, y, p) == (f[0] + y * 0) % p);
    } else {
        let g = f.skip(2);
        assert(f.skip(1).skip(1) =~= g);
        assert(even.skip(1) =~= even_part(g));
        assert(odd.skip(1) =~= odd_part(g));
        lemma_split_eval(g, x, p);
        let eg = poly_eval(even_part(g), y, p);
        let og = poly_eval(odd_part(g), y, p);
        let f0 = f[0];
        let f1 = f[1];
        let inner = poly_eval(g, x, p);
        let mid = poly_eval(f.skip(1), x, p);
        assert(mid == (f1 + x * inner) % p);
        assert(poly_eval(f, x, p) == (f0 + x * mid) % p);
        assert(poly_eval(even, y, p) == (f0 + y * eg) % p);
        assert(poly_eval(odd, y, p) == (f1 + y * og) % p);
        // the left side: f0 + x * (f1 + x * (eg + x * og))
        lemma_mod_twice(eg + x * og, p);
        lemma_cong_mul(x, x, inner, eg + x * og, p);
        lemma_cong_add(f1, f1, x * inner, x * (eg + x * og), p);
        lemma_mod_twice(f1 + x * inner, p);
        lemma_cong_mul(x, x, mid, f1 + x * (eg + x * og), p);
        lemma_cong_add(f0, f0, x * mid, x * (f1 + x * (eg + x * og)), p);
        // the right side: (f0 + x^2 * eg) + x * (f1 + x^2 * og)
        lemma_mod_twice(x * x, p);
        lemma_cong_mul(y, x * x, eg, eg, p);
        lemma_cong_mul(y, x * x, og, og, p);
        lemma_cong_add(f0, f0, y * eg, (x * x) * eg, p);
        lemma_cong_add(f1, f1, y * og, (x * x) * og, p);
        lemma_mod_twice(f0 + y * eg, p);
        lemma_mod_twice(f1 + y * og, p);
        lemma_cong_mul(x, x, (f1 + y * og) % p, f1 + (x * x) * og, p);
        lemma_cong_add(
            (f0 + y * eg) % p,
            f0 + (x * x) * eg,
            x * ((f1 + y * og) % p),
            x * (f1 + (x * x) * og),
            p,
        );
        let xx = x * x;
        let xog = x * og;
        assert(x * (eg + xog) == x * eg + x * xog) by (nonlinear_arith);
        assert(x * xog == xx * og) by (nonlinear_arith)
            requires
                xog == x * og,
                xx == x * x,
        ;
        assert(x * (f1 + (x * eg + xx * og)) == x * f1 + (xx * eg + x * (xx * og)))
            by (nonlinear_arith)
            requires
                xx == x * x,
        ;
        assert(x * (f1 + xx * og) == x * f1 + x * (xx * og)) by (nonlinear_arith);
        assert(f0 + x * (f1 + x * (eg + x * og)) == (f0 + (x * x) * eg) + x * (f1 + (x * x) * og));
        assert(poly_eval(f, x, p) == (f0 + x * (f1 + x * (eg + x * og))) % p);
        assert((poly_eval(even, y, p) + x * poly_eval(odd, y, p)) % p == ((f0 + (x * x) * eg) + x
            * (f1 + (x * x) * og)) % p);
    }
}

/// Folding the values of a polynomial at `x` and at `-x` gives the value
/// of the folded polynomial at `x^2`.
pub proof fn lemma_fold_of_values(f: Seq<int>, alpha: int, x: int, p: int)
    requires
        p >= 2,
        x >= 0,
        coprime(x, p),
        coprime(2, p),
    ensures
        fold_point(poly_eval(f, x, p), poly_eval(f, (-x) % p, p), alpha, x, p) == poly_eval(
            folded_poly(f, alpha, p),
            (x * x) % p,
            p,
        ),
{
    lemma_inverse_exists(x, p);
    lemma_inverse_exists(2, p);
    let xi = inv_mod(x, p);
    let h = inv_mod(2, p);
    let t = (alpha * xi) % p;
    let m = (-x) % p;
    let y = (x * x) % p;
    let e = poly_eval(even_part(f), y, p);
    let o = poly_eval(odd_part(f), y, p);
    let a = poly_eval(f, x, p);
    let b = poly_eval(f, m, p);
    lemma_small_mod(1, p as nat);
    // the square of -x is the square of x
    lemma_mod_twice(-x, p);
    lemma_cong_mul(m, -x, m, -x, p);
    assert((-x) * (-x) == x * x) by (nonlinear_arith);
    assert((m * m) % p == y);
    lemma_split_eval(f, x, p);
    lemma_split_eval(f, m, p);
    assert(a == (e + x * o) % p);
    assert(b == (e + m * o) % p);
    lemma_cong_mul(m, -x, o, o, p);
    lemma_cong_add(e, e, m * o, (-x) * o, p);
    lemma_mod_twice(e + x * o, p);
    lemma_mod_twice(e + m * o, p);
    let xo = x * o;
    assert((-x) * o == -xo) by (nonlinear_arith)
        requires
            xo == x * o,
    ;
    assert(b % p == (e - xo) % p);
    assert(a % p == (e + xo) % p);
    // x times t is alpha
    lemma_mod_twice(alpha * xi, p);
    lemma_cong_mul(x, x, t, alpha * xi, p);
    assert(x * (alpha * xi) == alpha * (x * xi)) by (nonlinear_arith);
    lemma_cong_mul(alpha, alpha, x * xi, 1, p);
    assert((x * t) % p == alpha % p);
    // the bracket: (1 + t) * a + (1 - t) * b = 2 * e + 2 * (t * x) * o
    lemma_cong_mul(1 + t, 1 + t, a, e + xo, p);
    lemma_cong_mul(1 - t, 1 - t, b, e - xo, p);
    lemma_cong_add((1 + t) * a, (1 + t) * (e + xo), (1 - t) * b, (1 - t) * (e - xo), p);
    let txo = t * xo;
    assert((1 + t) * (e + xo) + (1 - t) * (e - xo) == 2 * e + 2 * txo) by (nonlinear_arith)
        requires
            txo == t * xo,
    ;
    let xt = x * t;
    assert(txo == xt * o) by (nonlinear_arith)
        requires
            txo == t * xo,
            xo == x * o,
            xt == x * t,
    ;
    lemma_cong_mul(xt, alpha, o, o, p);
    let ao = alpha * o;
    lemma_cong_mul(2, 2, xt * o, ao, p);
    lemma_cong_add(2 * e, 2 * e, 2 * (xt * o), 2 * ao, p);
    let bracket = (1 + t) * a + (1 - t) * b;
    assert(bracket % p == (2 * e + 2 * ao) % p);
    // half of it
    lemma_cong_mul(h, h, bracket, 2 * e + 2 * ao, p);
    assert(h * (2 * e + 2 * ao) == (2 * h) * (e + ao)) by (nonlinear_arith);
    lemma_cong_mul(2 * h, 1, e + ao, e + ao, p);
    assert(fold_point(a, b, alpha, x, p) == (e + ao) % p);
    // the folded polynomial at the square
    lemma_eval_add(even_part(f), poly_scale(odd_part(f), alpha, p), y, p);
    lemma_eval_scale(odd_part(f), alpha, y, p);
    lemma_mod_twice(ao, p);
    lemma_cong_add(e, e, (alpha * o) % p, ao, p);
}

/// The point at place `i` of the coset of the squares is the square of the
/// point at place `i`.
pub proof fn lemma_squared_point(offset: int, omega: int, i: nat, p: int)
    requires
        p > 0,
    ensures
        domain_point((offset * offset) % p, (omega * omega) % p, i, p) == (domain_point(
            offset,
            omega,
            i,
            p,
        ) * domain_point(offset, omega, i, p)) % p,
{
    let w = pow(omega, i);
    let x = domain_point(offset, omega, i, p);
    lemma_pow_mod_noop(omega * omega, i, p);
    lemma_pow_distributes(omega, omega, i);
    lemma_mod_twice(pow(omega * omega, i), p);
    lemma_mod_twice(offset * offset, p);
    lemma_cong_mul(
        (offset * offset) % p,
        offset * offset,
        pow_mod((omega * omega) % p, i, p),
        w * w,
        p,
    );
    lemma_mod_twice(w, p);
    lemma_cong_mul(offset, offset, pow_mod(omega, i, p), w, p);
    lemma_mod_twice(offset * w, p);
    lemma_cong_mul(x, offset * w, x, offset * w, p);
    assert((offset * offset) * (w * w) == (offset * w) * (offset * w)) by (nonlinear_arith);
}

/// The values of a polynomial on a coset on which the point half a length
/// further is the negative fold to the values of the folded polynomial on
/// the coset of the squares.
pub proof fn lemma_fold_of_evaluations(
    f: Seq<int>,
    alpha: int,
    offset: int,
    omega: int,
    half: nat,
    p: int,
)
    requires
        p >= 2,
        coprime(2, p),
        forall|i: int|
            0 <= i < half ==> domain_point(offset, omega, i as nat, p) >= 0 && coprime(
                #[trigger] domain_point(offset, omega, i as nat, p),
                p,
            ),
        forall|i: int|
            0 <= i < half ==> #[trigger] domain_point(offset, omega, (i + half) as nat, p) == (
            -domain_point(offset, omega, i as nat, p)) % p,
    ensures
        fold_codeword(
            evaluations(f, coset(offset, omega, 2 * half, p), p),
            alpha,
            offset,
            omega,
            p,
        ) == evaluations(
            folded_poly(f, alpha, p),
            coset((offset * offset) % p, (omega * omega) % p, half, p),
            p,
        ),
{
    let domain = coset(offset, omega, 2 * half, p);
    let codeword = evaluations(f, domain, p);
    let left = fold_codeword(codeword, alpha, offset, omega, p);
    let squares = coset((offset * offset) % p, (omega * omega) % p, half, p);
    let right = evaluations(folded_poly(f, alpha, p), squares, p);
    assert(left.len() == right.len());
    assert forall|i: int| 0 <= i < half implies left[i] == right[i] by {
        let x = domain_point(offset, omega, i as nat, p);
        assert(coprime(domain_point(offset, omega, i as nat, p), p));
        assert(domain_point(offset, omega, (i + half) as nat, p) == (-x) % p);
        assert(codeword[i] == poly_eval(f, x, p));
        assert(codeword[half + i] == poly_eval(f, (-x) % p, p));
        lemma_fold_of_values(f, alpha, x, p);
        lemma_squared_point(offset, omega, i as nat, p);
    }
    assert(left =~= right);
}

} // verus!
