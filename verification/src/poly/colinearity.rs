//! The laws of the colinearity test: three points of a line pass, and no
//! single value of them can be changed without failing.
use vstd::prelude::*;
use vstd::arithmetic::div_mod::*;
use vstd::arithmetic::mul::*;

use crate::field::arith::{is_prime, lemma_cancel_factor};
use crate::poly::algebra::{colinear, lemma_cong_mul};

verus! {

/// The residue of `slope * x + intercept`.
pub open spec fn line_value(slope: int, intercept: int, x: int, p: int) -> int {
    (slope * x + intercept) % p
}

/// The difference of two values of a line is the slope times the
/// difference of the points.
proof fn lemma_line_difference(slope: int, intercept: int, x: int, x0: int, p: int)
    requires
        p > 0,
    ensures
        (line_value(slope, intercept, x, p) - line_value(slope, intercept, x0, p)) % p == (slope * (
        x - x0)) % p,
{
    lemma_sub_mod_noop(slope * x + intercept, slope * x0 + intercept, p);
    lemma_mul_is_distributive_sub(slope, x, x0);
}

/// Three points of one line pass the colinearity test.
pub proof fn lemma_line_is_colinear(slope: int, intercept: int, x0: int, x1: int, x2: int, p: int)
    requires
        p > 0,
    ensures
        colinear(
            x0,
            line_value(slope, intercept, x0, p),
            x1,
            line_value(slope, intercept, x1, p),
            x2,
            line_value(slope, intercept, x2, p),
            p,
        ),
{
    let y0 = line_value(slope, intercept, x0, p);
    let y1 = line_value(slope, intercept, x1, p);
    let y2 = line_value(slope, intercept, x2, p);
    lemma_line_difference(slope, intercept, x1, x0, p);
    lemma_line_difference(slope, intercept, x2, x0, p);
    lemma_cong_mul(y1 - y0, slope * (x1 - x0), x2 - x0, x2 - x0, p);
    lemma_cong_mul(y2 - y0, slope * (x2 - x0), x1 - x0, x1 - x0, p);
    assert((slope * (x1 - x0)) * (x2 - x0) == (slope * (x2 - x0)) * (x1 - x0)) by (nonlinear_arith);
}

/// What the test compares, as one number: zero modulo `p` exactly for
/// colinear points.
pub open spec fn cross(x0: int, y0: int, x1: int, y1: int, x2: int, y2: int) -> int {
    (y1 - y0) * (x2 - x0) - (y2 - y0) * (x1 - x0)
}

proof fn lemma_colinear_cross(x0: int, y0: int, x1: int, y1: int, x2: int, y2: int, p: int)
    requires
        p > 0,
    ensures
        colinear(x0, y0, x1, y1, x2, y2, p) <==> cross(x0, y0, x1, y1, x2, y2) % p == 0,
{
    lemma_mod_equivalence((y1 - y0) * (x2 - x0), (y2 - y0) * (x1 - x0), p);
}

/// Two residues whose difference is a multiple of `p` are equal.
proof fn lemma_equal_residues(a: int, b: int, p: int)
    requires
        0 <= a < p,
        0 <= b < p,
        (a - b) % p == 0,
    ensures
        a == b,
{
    lemma_mod_equivalence(a, b, p);
    lemma_small_mod(a as nat, p as nat);
    lemma_small_mod(b as nat, p as nat);
}

/// In a prime field, with three distinct abscissas, changing the value of
/// any one of three colinear points makes the test fail.
pub proof fn lemma_perturbation_fails(
    x0: int,
    y0: int,
    x1: int,
    y1: int,
    x2: int,
    y2: int,
    changed: int,
    p: int,
)
    requires
        is_prime(p),
        0 <= x0 < p && 0 <= x1 < p && 0 <= x2 < p,
        0 <= y0 < p && 0 <= y1 < p && 0 <= y2 < p,
        0 <= changed < p,
        x0 != x1 && x0 != x2 && x1 != x2,
        colinear(x0, y0, x1, y1, x2, y2, p),
    ensures
        changed != y0 ==> !colinear(x0, changed, x1, y1, x2, y2, p),
        changed != y1 ==> !colinear(x0, y0, x1, changed, x2, y2, p),
        changed != y2 ==> !colinear(x0, y0, x1, y1, x2, changed, p),
{
    let d = cross(x0, y0, x1, y1, x2, y2);
    lemma_colinear_cross(x0, y0, x1, y1, x2, y2, p);
    if changed != y0 && colinear(x0, changed, x1, y1, x2, y2, p) {
        let e = cross(x0, changed, x1, y1, x2, y2);
        lemma_colinear_cross(x0, changed, x1, y1, x2, y2, p);
        assert(e - d == (y0 - changed) * (x2 - x1)) by (nonlinear_arith)
            requires
                d == (y1 - y0) * (x2 - x0) - (y2 - y0) * (x1 - x0),
                e == (y1 - changed) * (x2 - x0) - (y2 - changed) * (x1 - x0),
        ;
        lemma_mod_equivalence(e, d, p);
        lemma_nonzero_difference(x2, x1, p);
        lemma_cancel_factor(y0 - changed, x2 - x1, p);
        lemma_equal_residues(y0, changed, p);
    }
    if changed != y1 && colinear(x0, y0, x1, changed, x2, y2, p) {
        let e = cross(x0, y0, x1, changed, x2, y2);
        lemma_colinear_cross(x0, y0, x1, changed, x2, y2, p);
        assert(e - d == (changed - y1) * (x2 - x0)) by (nonlinear_arith)
            requires
                d == (y1 - y0) * (x2 - x0) - (y2 - y0) * (x1 - x0),
                e == (changed - y0) * (x2 - x0) - (y2 - y0) * (x1 - x0),
        ;
        lemma_mod_equivalence(e, d, p);
        lemma_nonzero_difference(x2, x0, p);
        lemma_cancel_factor(changed - y1, x2 - x0, p);
        lemma_equal_residues(changed, y1, p);
    }
    if changed != y2 && colinear(x0, y0, x1, y1, x2, changed, p) {
        let e = cross(x0, y0, x1, y1, x2, changed);
        lemma_colinear_cross(x0, y0, x1, y1, x2, changed, p);
        assert(d - e == (changed - y2) * (x1 - x0)) by (nonlinear_arith)
            requires
                d == (y1 - y0) * (x2 - x0) - (y2 - y0) * (x1 - x0),
                e == (y1 - y0) * (x2 - x0) - (changed - y0) * (x1 - x0),
        ;
        lemma_mod_equivalence(d, e, p);
        lemma_nonzero_difference(x1, x0, p);
        lemma_cancel_factor(changed - y2, x1 - x0, p);
        lemma_equal_residues(changed, y2, p);
    }
}

/// The difference of two distinct residues is not a multiple of `p`.
proof fn lemma_nonzero_difference(a: int, b: int, p: int)
    requires
        0 <= a < p,
        0 <= b < p,
        a != b,
    ensures
        (a - b) % p != 0,
{
    if (a - b) % p == 0 {
        lemma_equal_residues(a, b, p);
    }
}

} // verus!
