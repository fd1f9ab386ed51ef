//! Polynomials as sequences of coefficients modulo `p`, lowest degree first:
//! what the operations of `Uni` compute, and the laws that they obey.
use vstd::prelude::*;
use vstd::arithmetic::div_mod::*;
use vstd::arithmetic::mul::*;

verus! {

/// The coefficient of `x^i`; zero beyond the end.
pub open spec fn coeff(s: Seq<int>, i: int) -> int {
    if 0 <= i < s.len() {
        s[i]
    } else {
        0
    }
}

/// Every coefficient lies in `[0, p)`.
pub open spec fn reduced(s: Seq<int>, p: int) -> bool {
    forall|i: int| 0 <= i < s.len() ==> 0 <= #[trigger] s[i] < p
}

/// The two sequences spell the same polynomial: they differ at most in
/// trailing zeros.
pub open spec fn same_poly(a: Seq<int>, b: Seq<int>) -> bool {
    forall|i: int| 0 <= i ==> #[trigger] coeff(a, i) == coeff(b, i)
}

/// The largest index of a non-zero coefficient; `-1` for the zero polynomial.
pub open spec fn degree(s: Seq<int>) -> int
    decreases s.len(),
{
    if s.len() == 0 {
        -1
    } else if s.last() != 0 {
        s.len() - 1
    } else {
        degree(s.drop_last())
    }
}

/// The longer of two lengths.
pub open spec fn longer(a: nat, b: nat) -> nat {
    if a >= b {
        a
    } else {
        b
    }
}

/// The sum, coefficient by coefficient.
pub open spec fn poly_add(a: Seq<int>, b: Seq<int>, p: int) -> Seq<int> {
    Seq::new(longer(a.len(), b.len()), |i: int| (coeff(a, i) + coeff(b, i)) % p)
}

/// The additive inverse, coefficient by coefficient.
pub open spec fn poly_neg(a: Seq<int>, p: int) -> Seq<int> {
    Seq::new(a.len(), |i: int| (-a[i]) % p)
}

/// The difference, coefficient by coefficient.
pub open spec fn poly_sub(a: Seq<int>, b: Seq<int>, p: int) -> Seq<int> {
    Seq::new(longer(a.len(), b.len()), |i: int| (coeff(a, i) - coeff(b, i)) % p)
}

/// Every coefficient times `c`.
pub open spec fn poly_scale(a: Seq<int>, c: int, p: int) -> Seq<int> {
    Seq::new(a.len(), |i: int| (a[i] * c) % p)
}

/// The first `n` terms of the sum that gives coefficient `k` of a product:
/// `a[0] * b[k] + a[1] * b[k - 1] + ...`.
pub open spec fn conv(a: Seq<int>, b: Seq<int>, k: int, n: nat) -> int
    decreases n,
{
    if n == 0 {
        0
    } else {
        conv(a, b, k, (n - 1) as nat) + coeff(a, n - 1) * coeff(b, k - (n - 1))
    }
}

/// The length of a product: nothing for an empty factor, else one less
/// than the sum of the lengths.
pub open spec fn product_len(a: nat, b: nat) -> nat {
    if a == 0 || b == 0 {
        0
    } else {
        (a + b - 1) as nat
    }
}

/// The product.
pub open spec fn poly_mul(a: Seq<int>, b: Seq<int>, p: int) -> Seq<int> {
    Seq::new(product_len(a.len(), b.len()), |k: int| conv(a, b, k, a.len()) % p)
}

/// The value at `x`, by Horner's rule.
pub open spec fn poly_eval(a: Seq<int>, x: int, p: int) -> int
    decreases a.len(),
{
    if a.len() == 0 {
        0
    } else {
        (a[0] + x * poly_eval(a.skip(1), x, p)) % p
    }
}

/// The degree is below the length, and the coefficient at the degree is the
/// last non-zero one.
pub proof fn lemma_degree(s: Seq<int>)
    ensures
        -1 <= degree(s) < s.len(),
        degree(s) >= 0 ==> s[degree(s)] != 0,
        forall|i: int| degree(s) < i < s.len() ==> s[i] == 0,
    decreases s.len(),
{
    if s.len() > 0 && s.last() == 0 {
        lemma_degree(s.drop_last());
        assert forall|i: int| degree(s) < i < s.len() implies s[i] == 0 by {
            if i < s.len() - 1 {
                assert(s.drop_last()[i] == s[i]);
            }
        }
    }
}

/// Changing one coefficient of the left factor changes each term sum by
/// the change times the matching coefficient of the right factor.
pub proof fn lemma_conv_update(a: Seq<int>, m: int, c: int, b: Seq<int>, k: int, n: nat)
    requires
        0 <= m < a.len(),
    ensures
        conv(a.update(m, c), b, k, n) == conv(a, b, k, n) + (if m < n {
            (c - a[m]) * coeff(b, k - m)
        } else {
            0
        }),
    decreases n,
{
    if n > 0 {
        lemma_conv_update(a, m, c, b, k, (n - 1) as nat);
        if m == n - 1 {
            lemma_mul_is_distributive_sub_other_way(coeff(b, k - m), c, a[m]);
        }
    }
}

/// A term sum is zero where the right factor has only zeros to offer.
pub proof fn lemma_conv_zero(a: Seq<int>, b: Seq<int>, k: int, n: nat)
    requires
        forall|m: int| 0 <= m < n ==> #[trigger] coeff(b, k - m) == 0,
    ensures
        conv(a, b, k, n) == 0,
    decreases n,
{
    if n > 0 {
        lemma_conv_zero(a, b, k, (n - 1) as nat);
        assert(coeff(b, k - (n - 1)) == 0);
        lemma_mul_basics(coeff(a, n - 1));
    }
}

/// A term sum over all zeros on the left is zero.
pub proof fn lemma_conv_of_zeros(a: Seq<int>, b: Seq<int>, k: int, n: nat)
    requires
        forall|m: int| 0 <= m < n ==> #[trigger] coeff(a, m) == 0,
    ensures
        conv(a, b, k, n) == 0,
    decreases n,
{
    if n > 0 {
        lemma_conv_of_zeros(a, b, k, (n - 1) as nat);
        assert(coeff(a, n - 1) == 0);
        lemma_mul_basics(coeff(b, k - (n - 1)));
    }
}

/// Long division, one step at one index: subtracting `c * d[i - k]` from
/// the remainder while the quotient gains `c` at `k` keeps
/// `quotient * divisor + remainder`.
pub proof fn lemma_division_step(
    sum_before: int,
    rem_before: int,
    c: int,
    dk: int,
    target: int,
    p: int,
)
    requires
        p > 0,
        (sum_before + rem_before) % p == target,
    ensures
        (sum_before + c * dk + (rem_before - c * dk) % p) % p == target,
{
    lemma_add_mod_noop_right(sum_before + c * dk, rem_before - c * dk, p);
}

/// The quotient coefficient `c = top / lead` clears the top of the remainder.
pub proof fn lemma_division_clears(top: int, inv: int, lead: int, c: int, p: int)
    requires
        p > 0,
        0 <= top < p,
        (lead * inv) % p == 1,
        c == (top * inv) % p,
    ensures
        (top - c * lead) % p == 0,
{
    lemma_mul_mod_noop_left(top * inv, lead, p);
    lemma_mul_is_associative(top, inv, lead);
    lemma_mul_is_commutative(inv, lead);
    lemma_mul_mod_noop_right(top, lead * inv, p);
    lemma_mul_basics(top);
    lemma_small_mod(top as nat, p as nat);
    assert((c * lead) % p == top);
    lemma_sub_mod_noop_right(top, c * lead, p);
    lemma_small_mod(0, p as nat);
}

/// Congruent summands give congruent sums.
pub proof fn lemma_cong_add(a: int, a2: int, b: int, b2: int, p: int)
    requires
        p > 0,
        a % p == a2 % p,
        b % p == b2 % p,
    ensures
        (a + b) % p == (a2 + b2) % p,
{
    lemma_add_mod_noop(a, b, p);
    lemma_add_mod_noop(a2, b2, p);
}

/// Congruent factors give congruent products.
pub proof fn lemma_cong_mul(a: int, a2: int, b: int, b2: int, p: int)
    requires
        p > 0,
        a % p == a2 % p,
        b % p == b2 % p,
    ensures
        (a * b) % p == (a2 * b2) % p,
{
    lemma_mul_mod_noop(a, b, p);
    lemma_mul_mod_noop(a2, b2, p);
}

/// The polynomial times `x`: a zero in front of the coefficients.
pub open spec fn poly_shift(a: Seq<int>) -> Seq<int> {
    seq![0int] + a
}

/// The polynomial times `x - root`.
pub open spec fn mul_linear(a: Seq<int>, root: int, p: int) -> Seq<int> {
    poly_sub(poly_shift(a), poly_scale(a, root, p), p)
}

/// The product of `x - d` over the points `d` of a domain; one for no point.
pub open spec fn root_product(domain: Seq<int>, p: int) -> Seq<int>
    decreases domain.len(),
{
    if domain.len() == 0 {
        seq![1int]
    } else {
        mul_linear(root_product(domain.drop_last(), p), domain.last(), p)
    }
}

/// What is left of a sequence behind its first entry; nothing of an empty one.
pub open spec fn tail(a: Seq<int>) -> Seq<int> {
    if a.len() == 0 {
        a
    } else {
        a.skip(1)
    }
}

/// Horner's rule, one step, also for the empty polynomial.
pub proof fn lemma_eval_step(a: Seq<int>, x: int, p: int)
    requires
        p > 0,
    ensures
        poly_eval(a, x, p) == (coeff(a, 0) + x * poly_eval(tail(a), x, p)) % p,
{
    if a.len() == 0 {
        lemma_mul_basics(x);
        lemma_small_mod(0, p as nat);
    }
}

/// The value of a sum is the sum of the values.
pub proof fn lemma_eval_add(a: Seq<int>, b: Seq<int>, x: int, p: int)
    requires
        p > 0,
    ensures
        poly_eval(poly_add(a, b, p), x, p) == (poly_eval(a, x, p) + poly_eval(b, x, p)) % p,
    decreases a.len() + b.len(),
{
    let s = poly_add(a, b, p);
    if a.len() == 0 && b.len() == 0 {
        lemma_small_mod(0, p as nat);
    } else {
        assert(tail(s) =~= poly_add(tail(a), tail(b), p));
        lemma_eval_add(tail(a), tail(b), x, p);
        lemma_eval_step(a, x, p);
        lemma_eval_step(b, x, p);
        lemma_eval_step(s, x, p);
        let ea = poly_eval(tail(a), x, p);
        let eb = poly_eval(tail(b), x, p);
        let a0 = coeff(a, 0);
        let b0 = coeff(b, 0);
        lemma_mod_twice(a0 + b0, p);
        lemma_mod_twice(ea + eb, p);
        lemma_cong_mul(x, x, (ea + eb) % p, ea + eb, p);
        lemma_cong_add((a0 + b0) % p, a0 + b0, x * ((ea + eb) % p), x * (ea + eb), p);
        lemma_mul_is_distributive_add(x, ea, eb);
        lemma_add_mod_noop(a0 + x * ea, b0 + x * eb, p);
    }
}

/// The value of a difference is the difference of the values.
pub proof fn lemma_eval_sub(a: Seq<int>, b: Seq<int>, x: int, p: int)
    requires
        p > 0,
    ensures
        poly_eval(poly_sub(a, b, p), x, p) == (poly_eval(a, x, p) - poly_eval(b, x, p)) % p,
    decreases a.len() + b.len(),
{
    let s = poly_sub(a, b, p);
    if a.len() == 0 && b.len() == 0 {
        lemma_small_mod(0, p as nat);
    } else {
        assert(tail(s) =~= poly_sub(tail(a), tail(b), p));
        lemma_eval_sub(tail(a), tail(b), x, p);
        lemma_eval_step(a, x, p);
        lemma_eval_step(b, x, p);
        lemma_eval_step(s, x, p);
        let ea = poly_eval(tail(a), x, p);
        let eb = poly_eval(tail(b), x, p);
        let a0 = coeff(a, 0);
        let b0 = coeff(b, 0);
        lemma_mod_twice(a0 - b0, p);
        lemma_mod_twice(ea - eb, p);
        lemma_cong_mul(x, x, (ea - eb) % p, ea - eb, p);
        lemma_cong_add((a0 - b0) % p, a0 - b0, x * ((ea - eb) % p), x * (ea - eb), p);
        lemma_mul_is_distributive_sub(x, ea, eb);
        lemma_sub_mod_noop(a0 + x * ea, b0 + x * eb, p);
    }
}

/// The value of a multiple is the multiple of the value.
pub proof fn lemma_eval_scale(a: Seq<int>, c: int, x: int, p: int)
    requires
        p > 0,
    ensures
        poly_eval(poly_scale(a, c, p), x, p) == (c * poly_eval(a, x, p)) % p,
    decreases a.len(),
{
    let s = poly_scale(a, c, p);
    if a.len() == 0 {
        lemma_mul_basics(c);
        lemma_small_mod(0, p as nat);
    } else {
        assert(s.skip(1) =~= poly_scale(a.skip(1), c, p));
        lemma_eval_scale(a.skip(1), c, x, p);
        let ea = poly_eval(a.skip(1), x, p);
        let a0 = a[0];
        lemma_mod_twice(a0 * c, p);
        lemma_mod_twice(c * ea, p);
        lemma_cong_mul(x, x, (c * ea) % p, c * ea, p);
        lemma_cong_add((a0 * c) % p, a0 * c, x * ((c * ea) % p), x * (c * ea), p);
        assert(a0 * c + x * (c * ea) == c * (a0 + x * ea)) by (nonlinear_arith);
        lemma_mul_mod_noop_right(c, a0 + x * ea, p);
    }
}

/// The value of `x` times a polynomial is `x` times its value.
pub proof fn lemma_eval_shift(a: Seq<int>, x: int, p: int)
    requires
        p > 0,
    ensures
        poly_eval(poly_shift(a), x, p) == (x * poly_eval(a, x, p)) % p,
{
    assert(poly_shift(a).skip(1) =~= a);
}

/// The value of a polynomial times `x - root` is its value times `x - root`.
pub proof fn lemma_eval_mul_linear(a: Seq<int>, root: int, x: int, p: int)
    requires
        p > 0,
    ensures
        poly_eval(mul_linear(a, root, p), x, p) == (poly_eval(a, x, p) * (x - root)) % p,
{
    let e = poly_eval(a, x, p);
    lemma_eval_sub(poly_shift(a), poly_scale(a, root, p), x, p);
    lemma_eval_shift(a, x, p);
    lemma_eval_scale(a, root, x, p);
    lemma_sub_mod_noop(x * e, root * e, p);
    lemma_mul_is_distributive_sub_other_way(e, x, root);
    lemma_mul_is_commutative(e, x - root);
}

/// The product of `x - d` over a domain vanishes at every point of the domain.
pub proof fn lemma_root_product_vanishes(domain: Seq<int>, k: int, p: int)
    requires
        p > 0,
        0 <= k < domain.len(),
    ensures
        poly_eval(root_product(domain, p), domain[k], p) == 0,
    decreases domain.len(),
{
    let front = root_product(domain.drop_last(), p);
    let x = domain[k];
    lemma_eval_mul_linear(front, domain.last(), x, p);
    if k == domain.len() - 1 {
        lemma_mul_basics(poly_eval(front, x, p));
        lemma_small_mod(0, p as nat);
    } else {
        lemma_root_product_vanishes(domain.drop_last(), k, p);
        lemma_mul_basics(x - domain.last());
        lemma_small_mod(0, p as nat);
    }
}

/// The product of `x - d` over `n` points has `n + 1` reduced coefficients
/// and the leading coefficient one.
pub proof fn lemma_root_product_shape(domain: Seq<int>, p: int)
    requires
        p >= 2,
    ensures
        root_product(domain, p).len() == domain.len() + 1,
        reduced(root_product(domain, p), p),
        root_product(domain, p).last() == 1,
    decreases domain.len(),
{
    if domain.len() > 0 {
        let front = root_product(domain.drop_last(), p);
        lemma_root_product_shape(domain.drop_last(), p);
        let whole = root_product(domain, p);
        assert forall|i: int| 0 <= i < whole.len() implies 0 <= #[trigger] whole[i] < p by {
            lemma_mod_bound(coeff(poly_shift(front), i) - coeff(poly_scale(front, domain.last(), p), i), p);
        }
        lemma_small_mod(1, p as nat);
    }
}

/// No two entries are equal.
pub open spec fn distinct(d: Seq<int>) -> bool {
    forall|i: int, j: int| 0 <= i < j < d.len() ==> d[i] != d[j]
}

/// The difference of two entries, as a residue.
pub open spec fn difference(d: Seq<int>, i: int, j: int, p: int) -> int {
    (d[i] - d[j]) % p
}

/// The difference of any two entries at different places has an inverse.
pub open spec fn invertible_differences(d: Seq<int>, p: int) -> bool {
    forall|i: int, j: int|
        0 <= i < d.len() && 0 <= j < d.len() && i != j ==> crate::field::arith::coprime(
            #[trigger] difference(d, i, j, p),
            p,
        )
}

/// The polynomial takes the value `v[k]` at each point `d[k]`.
pub open spec fn interpolates(poly: Seq<int>, d: Seq<int>, v: Seq<int>, p: int) -> bool {
    forall|k: int| 0 <= k < d.len() ==> #[trigger] poly_eval(poly, d[k], p) == v[k]
}

/// One factor more in the numerator and its inverse in the weight leave
/// their product unchanged.
pub proof fn lemma_weight_step(e: int, d: int, w: int, inv: int, v: int, p: int)
    requires
        p > 0,
        (e * w) % p == v,
        ((d % p) * inv) % p == 1,
    ensures
        (((e * d) % p) * ((w * inv) % p)) % p == v,
{
    lemma_mod_twice(e * d, p);
    lemma_mod_twice(w * inv, p);
    lemma_cong_mul((e * d) % p, e * d, (w * inv) % p, w * inv, p);
    assert((e * d) * (w * inv) == (e * w) * (d * inv)) by (nonlinear_arith);
    lemma_mod_twice(d, p);
    lemma_cong_mul(d % p, d, inv, inv, p);
    lemma_mod_twice(e * w, p);
    lemma_small_mod(1, p as nat);
    if p == 1 {
        assert(false);
    }
    lemma_cong_mul(e * w, e * w, d * inv, 1, p);
}

/// Three points lie on one line: the slopes from the first point to the
/// other two agree, cross-multiplied.
pub open spec fn colinear(x0: int, y0: int, x1: int, y1: int, x2: int, y2: int, p: int) -> bool {
    ((y1 - y0) * (x2 - x0)) % p == ((y2 - y0) * (x1 - x0)) % p
}

/// The product of `x - d[m]` over the places `m` below `j` other than `i`.
pub open spec fn lagrange_numerator(d: Seq<int>, i: int, j: nat, p: int) -> Seq<int>
    decreases j,
{
    if j == 0 {
        seq![1int]
    } else if j - 1 == i {
        lagrange_numerator(d, i, (j - 1) as nat, p)
    } else {
        mul_linear(lagrange_numerator(d, i, (j - 1) as nat, p), d[j - 1], p)
    }
}

/// The value `v[i]` divided by the product of `d[i] - d[m]` over the
/// places `m` below `j` other than `i`.
pub open spec fn lagrange_weight(d: Seq<int>, v: Seq<int>, i: int, j: nat, p: int) -> int
    decreases j,
{
    if j == 0 {
        v[i]
    } else if j - 1 == i {
        lagrange_weight(d, v, i, (j - 1) as nat, p)
    } else {
        (lagrange_weight(d, v, i, (j - 1) as nat, p) * crate::field::arith::inv_mod(
            difference(d, i, j - 1, p),
            p,
        )) % p
    }
}

/// The sum of the first `i` terms of Lagrange's formula.
pub open spec fn lagrange_sum(d: Seq<int>, v: Seq<int>, i: nat, p: int) -> Seq<int>
    decreases i,
{
    if i == 0 {
        Seq::new(d.len(), |k: int| 0int)
    } else {
        poly_add(
            lagrange_sum(d, v, (i - 1) as nat, p),
            poly_scale(
                lagrange_numerator(d, i - 1, d.len(), p),
                lagrange_weight(d, v, i - 1, d.len(), p),
                p,
            ),
            p,
        )
    }
}

/// The polynomial that Lagrange's formula gives for the values `v` at the
/// points `d`.
pub open spec fn lagrange(d: Seq<int>, v: Seq<int>, p: int) -> Seq<int> {
    lagrange_sum(d, v, d.len(), p)
}

/// The power `a^e`, by squaring and multiplying: the square of `a^(e/2)`,
/// times `a` once more for an odd `e`; the constant one for `e = 0`.
pub open spec fn poly_pow(a: Seq<int>, e: nat, p: int) -> Seq<int>
    decreases e,
{
    if e == 0 {
        seq![1int]
    } else {
        let half = poly_pow(a, e / 2, p);
        let square = poly_mul(half, half, p);
        if e % 2 == 1 {
            poly_mul(square, a, p)
        } else {
            square
        }
    }
}

/// A power of a polynomial with `n >= 1` coefficients has `(n - 1) * e + 1`
/// coefficients.
pub proof fn lemma_poly_pow_len(a: Seq<int>, e: nat, p: int)
    requires
        a.len() >= 1,
    ensures
        poly_pow(a, e, p).len() == (a.len() - 1) * e + 1,
    decreases e,
{
    if e > 0 {
        lemma_poly_pow_len(a, e / 2, p);
        let n = a.len() - 1;
        let h = e / 2;
        assert(n * e == if e % 2 == 1 {
            2 * (n * h) + n
        } else {
            2 * (n * h)
        }) by (nonlinear_arith)
            requires
                e == 2 * h + e % 2,
                0 <= e % 2 < 2,
        ;
    } else {
        lemma_mul_basics(a.len() - 1);
    }
}

/// Two sequences whose coefficients are congruent place by place have the
/// same value everywhere.
pub proof fn lemma_eval_congruent(a: Seq<int>, b: Seq<int>, x: int, p: int)
    requires
        p > 0,
        forall|i: int| 0 <= i ==> #[trigger] coeff(a, i) % p == coeff(b, i) % p,
    ensures
        poly_eval(a, x, p) == poly_eval(b, x, p),
    decreases a.len() + b.len(),
{
    if a.len() > 0 || b.len() > 0 {
        assert forall|i: int| 0 <= i implies #[trigger] coeff(tail(a), i) % p == coeff(tail(b), i)
            % p by {
            assert(coeff(a, i + 1) % p == coeff(b, i + 1) % p);
        }
        lemma_eval_congruent(tail(a), tail(b), x, p);
        lemma_eval_step(a, x, p);
        lemma_eval_step(b, x, p);
        assert(coeff(a, 0) % p == coeff(b, 0) % p);
        let e = poly_eval(tail(a), x, p);
        lemma_cong_add(coeff(a, 0), coeff(b, 0), x * e, x * e, p);
    }
}

/// The term sum for a product splits off the first coefficient of the
/// left factor.
pub proof fn lemma_conv_split(a: Seq<int>, b: Seq<int>, k: int, n: nat)
    requires
        1 <= n,
        a.len() >= 1,
    ensures
        conv(a, b, k, n) == a[0] * coeff(b, k) + conv(a.skip(1), b, k - 1, (n - 1) as nat),
    decreases n,
{
    if n == 1 {
        assert(conv(a, b, k, 0) == 0);
        assert(conv(a.skip(1), b, k - 1, 0) == 0);
    } else {
        lemma_conv_split(a, b, k, (n - 1) as nat);
        assert(coeff(a, n - 1) == coeff(a.skip(1), n - 2));
    }
}

/// The value of a product is the product of the values.
pub proof fn lemma_eval_mul(a: Seq<int>, b: Seq<int>, x: int, p: int)
    requires
        p > 0,
    ensures
        poly_eval(poly_mul(a, b, p), x, p) == (poly_eval(a, x, p) * poly_eval(b, x, p)) % p,
    decreases a.len(),
{
    let product = poly_mul(a, b, p);
    lemma_small_mod(0, p as nat);
    if a.len() == 0 || b.len() == 0 {
        lemma_mul_basics(poly_eval(a, x, p));
        lemma_mul_basics(poly_eval(b, x, p));
    } else {
        let rest = a.skip(1);
        let inner = poly_mul(rest, b, p);
        let scaled = poly_scale(b, a[0], p);
        let shifted = poly_shift(inner);
        let sum = poly_add(scaled, shifted, p);
        lemma_eval_mul(rest, b, x, p);
        // the product spells the first coefficient times b plus x times the inner product
        assert forall|k: int| 0 <= k implies #[trigger] coeff(product, k) % p == coeff(sum, k)
            % p by {
            lemma_conv_split(a, b, k, a.len());
            let first = a[0] * coeff(b, k);
            let later = conv(rest, b, k - 1, rest.len());
            if k >= product.len() {
                // beyond the product both sides are zero
                assert(coeff(scaled, k) == 0);
                assert(coeff(shifted, k) == 0);
                assert(coeff(sum, k) == 0 || coeff(sum, k) == (0int + 0int) % p);
            } else {
                assert(coeff(product, k) == (first + later) % p);
                lemma_mod_twice(first + later, p);
                let s = coeff(scaled, k);
                let h = coeff(shifted, k);
                lemma_mul_is_commutative(a[0], coeff(b, k));
                assert(s % p == first % p) by {
                    if k < b.len() {
                        lemma_mod_twice(b[k] * a[0], p);
                    } else {
                        lemma_mul_basics(a[0]);
                    }
                }
                assert(h % p == later % p) by {
                    if 1 <= k && k - 1 < inner.len() {
                        assert(h == inner[k - 1]);
                        lemma_mod_twice(later, p);
                    } else if k == 0 {
                        lemma_conv_zero(rest, b, -1, rest.len());
                    } else {
                        // k - 1 is beyond the inner product: every term is zero
                        if rest.len() > 0 {
                            assert forall|m: int| 0 <= m < rest.len() implies #[trigger] coeff(
                                b,
                                k - 1 - m,
                            ) == 0 by {}
                            lemma_conv_zero(rest, b, k - 1, rest.len());
                        }
                    }
                }
                lemma_cong_add(s, first, h, later, p);
                lemma_mod_twice(s + h, p);
            }
        }
        lemma_eval_congruent(product, sum, x, p);
        lemma_eval_add(scaled, shifted, x, p);
        lemma_eval_scale(b, a[0], x, p);
        lemma_eval_shift(inner, x, p);
        let ea = poly_eval(a, x, p);
        let eb = poly_eval(b, x, p);
        let er = poly_eval(rest, x, p);
        // ea = (a0 + x * er) % p, and the sum has the value a0 * eb + x * (er * eb)
        lemma_mod_twice(a[0] * eb, p);
        lemma_mod_twice(er * eb, p);
        lemma_cong_mul(x, x, (er * eb) % p, er * eb, p);
        lemma_mod_twice(x * ((er * eb) % p), p);
        lemma_cong_add((a[0] * eb) % p, a[0] * eb, (x * ((er * eb) % p)) % p, x * (er * eb), p);
        lemma_mod_twice(a[0] + x * er, p);
        lemma_cong_mul(ea, a[0] + x * er, eb, eb, p);
        assert((a[0] + x * er) * eb == a[0] * eb + x * (er * eb)) by (nonlinear_arith);
    }
}

/// The value of a power is the power of the value.
pub proof fn lemma_eval_pow(a: Seq<int>, e: nat, x: int, p: int)
    requires
        p > 0,
    ensures
        poly_eval(poly_pow(a, e, p), x, p) == crate::field::arith::pow_mod(
            poly_eval(a, x, p),
            e,
            p,
        ),
    decreases e,
{
    let v = poly_eval(a, x, p);
    if e == 0 {
        let one = poly_pow(a, 0, p);
        assert(one.skip(1) =~= Seq::<int>::empty());
        assert(poly_eval(one.skip(1), x, p) == 0);
        lemma_mul_basics(x);
        vstd::arithmetic::power::lemma_pow0(v);
    } else {
        let half = poly_pow(a, e / 2, p);
        let square = poly_mul(half, half, p);
        let h = vstd::arithmetic::power::pow(v, e / 2);
        lemma_eval_pow(a, e / 2, x, p);
        lemma_eval_mul(half, half, x, p);
        vstd::arithmetic::power::lemma_pow_adds(v, e / 2, e / 2);
        lemma_mul_mod_noop(h, h, p);
        if e % 2 == 1 {
            lemma_eval_mul(square, a, x, p);
            vstd::arithmetic::power::lemma_pow_adds(v, 2 * (e / 2), 1);
            vstd::arithmetic::power::lemma_pow1(v);
            lemma_mul_mod_noop_left(h * h, v, p);
        }
    }
}

} // verus!
