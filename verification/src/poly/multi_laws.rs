//! The laws of multivariate polynomials: the value of the negation, of the
//! sum and of the product is the negation, the sum and the product of the
//! values.
use vstd::prelude::*;
use vstd::arithmetic::div_mod::*;
use vstd::arithmetic::mul::*;
use vstd::arithmetic::power::*;

use crate::field::arith::pow_mod;
use crate::poly::algebra::{lemma_cong_add, lemma_cong_mul};
use crate::poly::multi::{
    arity, exponent_at, joint_arity, key_index, key_sum, lemma_key_index_none, merged, merged_all,
    monomial_value, negated_terms, padded, padded_terms, pair_fits, placed_all, product_row,
    product_terms, products_fit, sum_terms, terms_value, times_terms, Term,
};

verus! {

/// No two entries have the same exponents.
pub open spec fn distinct_keys(terms: Seq<Term>) -> bool {
    forall|i: int, j: int| 0 <= i < j < terms.len() ==> terms[i].0 != terms[j].0
}

/// No exponent of an entry is negative.
pub open spec fn natural_terms(terms: Seq<Term>) -> bool {
    forall|i: int, k: int|
        0 <= i < terms.len() && 0 <= k < terms[i].0.len() ==> (#[trigger] terms[i].0[k]) >= 0
}

/// The value of a monomial and the value of a list of entries are residues.
pub proof fn lemma_values_reduced(terms: Seq<Term>, exponents: Seq<i32>, point: Seq<int>, p: int)
    requires
        p > 0,
    ensures
        0 <= terms_value(terms, point, p) < p,
        0 <= monomial_value(exponents, point, p) < p,
{
    if terms.len() > 0 {
        lemma_mod_bound(
            terms_value(terms.drop_last(), point, p) + terms.last().1 * monomial_value(
                terms.last().0,
                point,
                p,
            ),
            p,
        );
    }
    if exponents.len() > 0 {
        lemma_mod_bound(
            monomial_value(exponents.drop_last(), point, p) * pow_mod(
                point[exponents.len() - 1],
                exponents.last() as nat,
                p,
            ),
            p,
        );
    } else {
        lemma_mod_bound(1, p);
    }
}

/// A key that has a place stands at that place.
pub proof fn lemma_key_index_found(terms: Seq<Term>, key: Seq<i32>)
    ensures
        -1 <= key_index(terms, key) < terms.len(),
        key_index(terms, key) >= 0 ==> terms[key_index(terms, key)].0 == key,
    decreases terms.len(),
{
    if terms.len() > 0 {
        lemma_key_index_found(terms.drop_last(), key);
    }
}

/// Changing the coefficient of one entry changes the value by the change
/// times the value of the monomial.
pub proof fn lemma_value_update(terms: Seq<Term>, i: int, c: int, point: Seq<int>, p: int)
    requires
        p > 0,
        0 <= i < terms.len(),
    ensures
        terms_value(terms.update(i, (terms[i].0, c)), point, p) == (terms_value(terms, point, p)
            + (c - terms[i].1) * monomial_value(terms[i].0, point, p)) % p,
    decreases terms.len(),
{
    let changed = terms.update(i, (terms[i].0, c));
    let m = monomial_value(terms[i].0, point, p);
    let front = terms.drop_last();
    if i == terms.len() - 1 {
        assert(changed.drop_last() =~= front);
        let before = terms_value(front, point, p);
        lemma_mul_is_distributive_sub_other_way(m, c, terms[i].1);
        lemma_add_mod_noop_right((c - terms[i].1) * m, before + terms[i].1 * m, p);
    } else {
        assert(changed.drop_last() =~= front.update(i, (front[i].0, c)));
        lemma_value_update(front, i, c, point, p);
        let last = terms.last().1 * monomial_value(terms.last().0, point, p);
        let before = terms_value(front, point, p);
        lemma_add_mod_noop_right(last, before + (c - terms[i].1) * m, p);
        lemma_add_mod_noop_right((c - terms[i].1) * m, before + last, p);
    }
}

/// Merging a coefficient into a dictionary adds the coefficient times the
/// value of its monomial to the value.
pub proof fn lemma_value_merged(terms: Seq<Term>, key: Seq<i32>, v: int, point: Seq<int>, p: int)
    requires
        p > 0,
    ensures
        terms_value(merged(terms, key, v, p), point, p) == (terms_value(terms, point, p) + v
            * monomial_value(key, point, p)) % p,
{
    let i = key_index(terms, key);
    lemma_key_index_found(terms, key);
    if i >= 0 {
        let c = (terms[i].1 + v) % p;
        let m = monomial_value(key, point, p);
        lemma_value_update(terms, i, c, point, p);
        // (c - old) * m is congruent to v * m
        lemma_mod_twice(terms[i].1 + v, p);
        lemma_cong_add(c, terms[i].1 + v, -terms[i].1, -terms[i].1, p);
        lemma_cong_mul(c - terms[i].1, v, m, m, p);
        lemma_cong_add(
            terms_value(terms, point, p),
            terms_value(terms, point, p),
            (c - terms[i].1) * m,
            v * m,
            p,
        );
    } else {
        assert(terms.push((key, v)).drop_last() =~= terms);
    }
}

/// Merging a list of entries into a dictionary adds the value of the list
/// to the value.
pub proof fn lemma_value_merged_all(terms: Seq<Term>, items: Seq<Term>, point: Seq<int>, p: int)
    requires
        p > 0,
    ensures
        terms_value(merged_all(terms, items, p), point, p) == (terms_value(terms, point, p)
            + terms_value(items, point, p)) % p,
    decreases items.len(),
{
    lemma_values_reduced(terms, Seq::empty(), point, p);
    if items.len() == 0 {
        lemma_small_mod(terms_value(terms, point, p) as nat, p as nat);
    } else {
        let front = items.drop_last();
        let last = items.last().1 * monomial_value(items.last().0, point, p);
        lemma_value_merged_all(terms, front, point, p);
        lemma_value_merged(merged_all(terms, front, p), items.last().0, items.last().1, point, p);
        let a = terms_value(terms, point, p);
        let b = terms_value(front, point, p);
        lemma_add_mod_noop_right(last, a + b, p);
        lemma_add_mod_noop_right(a, b + last, p);
    }
}

/// Placing entries with distinct exponents one after another gives the entries.
pub proof fn lemma_placed_all_distinct(items: Seq<Term>)
    requires
        distinct_keys(items),
    ensures
        placed_all(Seq::empty(), items) == items,
    decreases items.len(),
{
    if items.len() > 0 {
        let front = items.drop_last();
        assert(distinct_keys(front)) by {
            assert forall|i: int, j: int| 0 <= i < j < front.len() implies front[i].0
                != front[j].0 by {
                assert(items[i].0 != items[j].0);
            }
        }
        lemma_placed_all_distinct(front);
        assert forall|j: int| 0 <= j < front.len() implies (#[trigger] front[j]).0
            != items.last().0 by {
            assert(items[j].0 != items[items.len() - 1].0);
        }
        lemma_key_index_none(front, items.last().0);
        assert(front.push((items.last().0, items.last().1)) =~= items);
    } else {
        assert(items =~= Seq::<Term>::empty());
    }
}

/// Exponents that are filled up with zeros give the same monomial value.
pub proof fn lemma_monomial_padded(exponents: Seq<i32>, n: nat, point: Seq<int>, p: int)
    requires
        p > 0,
        n >= exponents.len(),
    ensures
        monomial_value(padded(exponents, n), point, p) == monomial_value(exponents, point, p),
    decreases n - exponents.len(),
{
    if n == exponents.len() {
        assert(padded(exponents, n) =~= exponents);
    } else {
        let whole = padded(exponents, n);
        assert(whole.drop_last() =~= padded(exponents, (n - 1) as nat));
        lemma_monomial_padded(exponents, (n - 1) as nat, point, p);
        let m = monomial_value(exponents, point, p);
        lemma_values_reduced(Seq::empty(), exponents, point, p);
        lemma_pow0(point[n - 1]);
        lemma_mul_mod_noop_right(m, 1, p);
        lemma_mul_basics(m);
        lemma_small_mod(m as nat, p as nat);
    }
}

/// No entry has more variables than the arity.
pub proof fn lemma_arity_bounds(terms: Seq<Term>, i: int)
    requires
        0 <= i < terms.len(),
    ensures
        terms[i].0.len() <= arity(terms),
    decreases terms.len(),
{
    if i < terms.len() - 1 {
        lemma_arity_bounds(terms.drop_last(), i);
    }
}

/// Entries that are filled up with zeros give the same value.
pub proof fn lemma_value_padded(terms: Seq<Term>, n: nat, point: Seq<int>, p: int)
    requires
        p > 0,
        n >= arity(terms),
    ensures
        terms_value(padded_terms(terms, n), point, p) == terms_value(terms, point, p),
    decreases terms.len(),
{
    if terms.len() > 0 {
        let whole = padded_terms(terms, n);
        assert(whole.drop_last() =~= padded_terms(terms.drop_last(), n));
        lemma_value_padded(terms.drop_last(), n, point, p);
        lemma_arity_bounds(terms, terms.len() - 1);
        lemma_monomial_padded(terms.last().0, n, point, p);
    }
}

/// The value of the negation is the negation of the value.
pub proof fn lemma_value_negated(terms: Seq<Term>, point: Seq<int>, p: int)
    requires
        p > 0,
    ensures
        terms_value(negated_terms(terms, p), point, p) == (-terms_value(terms, point, p)) % p,
    decreases terms.len(),
{
    if terms.len() == 0 {
        lemma_small_mod(0, p as nat);
    } else {
        let whole = negated_terms(terms, p);
        assert(whole.drop_last() =~= negated_terms(terms.drop_last(), p));
        lemma_value_negated(terms.drop_last(), point, p);
        let before = terms_value(terms.drop_last(), point, p);
        let c = terms.last().1;
        let m = monomial_value(terms.last().0, point, p);
        lemma_mod_twice(-before, p);
        lemma_mod_twice(-c, p);
        lemma_cong_mul((-c) % p, -c, m, m, p);
        lemma_cong_add((-before) % p, -before, ((-c) % p) * m, (-c) * m, p);
        lemma_mul_unary_negation(c, m);
        lemma_mod_twice(before + c * m, p);
        lemma_cong_mul(-1, -1, (before + c * m) % p, before + c * m, p);
    }
}

/// The value of the sum is the sum of the values, for a first summand
/// whose entries stay distinct when they are filled up with zeros.
pub proof fn lemma_value_sum(first: Seq<Term>, second: Seq<Term>, point: Seq<int>, p: int)
    requires
        p > 0,
        distinct_keys(padded_terms(first, joint_arity(first, second))),
    ensures
        terms_value(sum_terms(first, second, p), point, p) == (terms_value(first, point, p)
            + terms_value(second, point, p)) % p,
{
    let n = joint_arity(first, second);
    let mine = padded_terms(first, n);
    let theirs = padded_terms(second, n);
    lemma_placed_all_distinct(mine);
    lemma_value_merged_all(mine, theirs, point, p);
    lemma_value_padded(first, n, point, p);
    lemma_value_padded(second, n, point, p);
}

/// The product of two monomials has the product of their values.
pub proof fn lemma_monomial_product(
    first: Seq<i32>,
    second: Seq<i32>,
    n: nat,
    point: Seq<int>,
    p: int,
)
    requires
        p > 0,
        pair_fits(first, second),
        forall|k: int| 0 <= k < first.len() ==> first[k] >= 0,
        forall|k: int| 0 <= k < second.len() ==> second[k] >= 0,
    ensures
        monomial_value(key_sum(first, second, n), point, p) == (monomial_value(
            padded(first, n),
            point,
            p,
        ) * monomial_value(padded(second, n), point, p)) % p,
    decreases n,
{
    let sum = key_sum(first, second, n);
    let a = padded(first, n);
    let b = padded(second, n);
    if n == 0 {
        lemma_mul_mod_noop(1, 1, p);
        lemma_mod_twice(1, p);
    } else {
        assert(sum.drop_last() =~= key_sum(first, second, (n - 1) as nat));
        assert(a.drop_last() =~= padded(first, (n - 1) as nat));
        assert(b.drop_last() =~= padded(second, (n - 1) as nat));
        lemma_monomial_product(first, second, (n - 1) as nat, point, p);
        let x = point[n - 1];
        let ea = exponent_at(first, n - 1);
        let eb = exponent_at(second, n - 1);
        assert(i32::MIN <= exponent_at(first, n - 1) + exponent_at(second, n - 1) <= i32::MAX);
        assert(a.last() == ea && b.last() == eb && sum.last() == ea + eb);
        let ma = monomial_value(a.drop_last(), point, p);
        let mb = monomial_value(b.drop_last(), point, p);
        let pa = pow(x, ea as nat);
        let pb = pow(x, eb as nat);
        lemma_pow_adds(x, ea as nat, eb as nat);
        // left: ((ma * mb) % p) * ((pa * pb) % p); right: ((ma * pa) % p) * ((mb * pb) % p)
        lemma_mod_twice(ma * mb, p);
        lemma_mod_twice(pa * pb, p);
        lemma_cong_mul((ma * mb) % p, ma * mb, (pa * pb) % p, pa * pb, p);
        lemma_mod_twice(pa, p);
        lemma_mod_twice(pb, p);
        lemma_cong_mul(ma, ma, pa % p, pa, p);
        lemma_cong_mul(mb, mb, pb % p, pb, p);
        lemma_mod_twice(ma * (pa % p), p);
        lemma_mod_twice(mb * (pb % p), p);
        lemma_cong_mul((ma * (pa % p)) % p, ma * pa, (mb * (pb % p)) % p, mb * pb, p);
        assert((ma * mb) * (pa * pb) == (ma * pa) * (mb * pb)) by (nonlinear_arith);
    }
}

/// Merging the products of one entry with the entries of a list adds the
/// value of the entry times the value of the list.
pub proof fn lemma_value_row(
    terms: Seq<Term>,
    entry: Term,
    items: Seq<Term>,
    n: nat,
    point: Seq<int>,
    p: int,
)
    requires
        p > 0,
        n >= entry.0.len(),
        n >= arity(items),
        natural_terms(seq![entry]),
        natural_terms(items),
        products_fit(seq![entry], items),
    ensures
        terms_value(product_row(terms, entry, items, n, p), point, p) == (terms_value(
            terms,
            point,
            p,
        ) + (entry.1 * monomial_value(entry.0, point, p)) * terms_value(items, point, p)) % p,
    decreases items.len(),
{
    let e = entry.1 * monomial_value(entry.0, point, p);
    let base = terms_value(terms, point, p);
    lemma_values_reduced(terms, entry.0, point, p);
    if items.len() == 0 {
        lemma_mul_basics(e);
        lemma_small_mod(base as nat, p as nat);
    } else {
        let front = items.drop_last();
        let last = items.last();
        assert(natural_terms(front)) by {
            assert forall|i: int, k: int|
                0 <= i < front.len() && 0 <= k < front[i].0.len() implies (
            #[trigger] front[i].0[k]) >= 0 by {
                assert(items[i].0[k] >= 0);
            }
        }
        assert(products_fit(seq![entry], front)) by {
            assert forall|i: int, j: int| 0 <= i < 1 && 0 <= j < front.len() implies pair_fits(
                (#[trigger] seq![entry][i]).0,
                (#[trigger] front[j]).0,
            ) by {
                assert(pair_fits(seq![entry][i].0, items[j].0));
            }
        }
        lemma_value_row(terms, entry, front, n, point, p);
        let key = key_sum(entry.0, last.0, n);
        let v = (entry.1 * last.1) % p;
        lemma_value_merged(product_row(terms, entry, front, n, p), key, v, point, p);
        assert(pair_fits(seq![entry][0].0, items[items.len() - 1].0));
        assert forall|k: int| 0 <= k < entry.0.len() implies entry.0[k] >= 0 by {
            assert(seq![entry][0].0[k] >= 0);
        }
        assert forall|k: int| 0 <= k < last.0.len() implies last.0[k] >= 0 by {
            assert(items[items.len() - 1].0[k] >= 0);
        }
        lemma_monomial_product(entry.0, last.0, n, point, p);
        lemma_arity_bounds(items, items.len() - 1);
        lemma_monomial_padded(entry.0, n, point, p);
        lemma_monomial_padded(last.0, n, point, p);
        let me = monomial_value(entry.0, point, p);
        let ml = monomial_value(last.0, point, p);
        let mk = monomial_value(key, point, p);
        let tf = terms_value(front, point, p);
        // v * mk is congruent to (entry.1 * me) * (last.1 * ml)
        lemma_mod_twice(entry.1 * last.1, p);
        lemma_mod_twice(me * ml, p);
        lemma_cong_mul(v, entry.1 * last.1, mk, me * ml, p);
        assert((entry.1 * last.1) * (me * ml) == e * (last.1 * ml)) by (nonlinear_arith)
            requires
                e == entry.1 * me,
        ;
        // the value of the list with its last entry
        let tl = terms_value(items, point, p);
        assert(tl == (tf + last.1 * ml) % p);
        lemma_mod_twice(tf + last.1 * ml, p);
        lemma_cong_mul(e, e, tl, tf + last.1 * ml, p);
        lemma_mul_is_distributive_add(e, tf, last.1 * ml);
        lemma_mod_twice(base + e * tf, p);
        lemma_cong_add((base + e * tf) % p, base + e * tf, v * mk, e * (last.1 * ml), p);
        lemma_cong_add(base, base, e * tl, e * tf + e * (last.1 * ml), p);
    }
}

/// Merging the products of the entries of two lists adds the product of
/// the values of the lists.
pub proof fn lemma_value_products(
    terms: Seq<Term>,
    first: Seq<Term>,
    second: Seq<Term>,
    n: nat,
    point: Seq<int>,
    p: int,
)
    requires
        p > 0,
        n >= arity(first),
        n >= arity(second),
        natural_terms(first),
        natural_terms(second),
        products_fit(first, second),
    ensures
        terms_value(product_terms(terms, first, second, n, p), point, p) == (terms_value(
            terms,
            point,
            p,
        ) + terms_value(first, point, p) * terms_value(second, point, p)) % p,
    decreases first.len(),
{
    let base = terms_value(terms, point, p);
    let b = terms_value(second, point, p);
    lemma_values_reduced(terms, Seq::empty(), point, p);
    if first.len() == 0 {
        lemma_mul_basics(b);
        lemma_small_mod(base as nat, p as nat);
    } else {
        let front = first.drop_last();
        let last = first.last();
        assert(natural_terms(front)) by {
            assert forall|i: int, k: int|
                0 <= i < front.len() && 0 <= k < front[i].0.len() implies (
            #[trigger] front[i].0[k]) >= 0 by {
                assert(first[i].0[k] >= 0);
            }
        }
        assert(products_fit(front, second)) by {
            assert forall|i: int, j: int|
                0 <= i < front.len() && 0 <= j < second.len() implies pair_fits(
                (#[trigger] front[i]).0,
                (#[trigger] second[j]).0,
            ) by {
                assert(pair_fits(first[i].0, second[j].0));
            }
        }
        assert(natural_terms(seq![last])) by {
            assert forall|i: int, k: int|
                0 <= i < 1 && 0 <= k < seq![last][i].0.len() implies (
            #[trigger] seq![last][i].0[k]) >= 0 by {
                assert(first[first.len() - 1].0[k] >= 0);
            }
        }
        assert(products_fit(seq![last], second)) by {
            assert forall|i: int, j: int| 0 <= i < 1 && 0 <= j < second.len() implies pair_fits(
                (#[trigger] seq![last][i]).0,
                (#[trigger] second[j]).0,
            ) by {
                assert(pair_fits(first[first.len() - 1].0, second[j].0));
            }
        }
        lemma_arity_bounds(first, first.len() - 1);
        lemma_value_products(terms, front, second, n, point, p);
        lemma_value_row(product_terms(terms, front, second, n, p), last, second, n, point, p);
        let a_front = terms_value(front, point, p);
        let e = last.1 * monomial_value(last.0, point, p);
        let a = terms_value(first, point, p);
        assert(a == (a_front + e) % p);
        lemma_mod_twice(base + a_front * b, p);
        lemma_cong_add((base + a_front * b) % p, base + a_front * b, e * b, e * b, p);
        lemma_mod_twice(a_front + e, p);
        lemma_cong_mul(a, a_front + e, b, b, p);
        lemma_mul_is_distributive_add_other_way(b, a_front, e);
        lemma_cong_add(base, base, a * b, a_front * b + e * b, p);
    }
}

/// The value of the product is the product of the values, for exponents
/// that are not negative and whose sums fit.
pub proof fn lemma_value_product(first: Seq<Term>, second: Seq<Term>, point: Seq<int>, p: int)
    requires
        p > 0,
        natural_terms(first),
        natural_terms(second),
        products_fit(first, second),
    ensures
        terms_value(times_terms(first, second, p), point, p) == (terms_value(first, point, p)
            * terms_value(second, point, p)) % p,
{
    lemma_value_products(Seq::empty(), first, second, joint_arity(first, second), point, p);
}

} // verus!
