//! The roots of unity of the default field: the generator of its subgroup
//! of order `2^32` has that order exactly, so each root handed out for a
//! power of two is primitive.
use vstd::prelude::*;
use vstd::arithmetic::div_mod::*;
use vstd::arithmetic::power::*;
use vstd::arithmetic::power2::*;

use crate::field::arith::pow_mod;
use crate::field::field::{root_of_order, TWO_ADIC_ORDER, TWO_ADIC_ROOT};
use crate::field::DEFAULT_PRIME;

verus! {

/// Squaring a power doubles its exponent, also modulo `p`.
proof fn lemma_square_mod(g: int, e: nat, p: int, x: int, y: int)
    requires
        p > 0,
        pow(g, e) % p == x,
        (x * x) % p == y,
    ensures
        pow(g, 2 * e) % p == y,
{
    lemma_pow_adds(g, e, e);
    lemma_mul_mod_noop_general(pow(g, e), pow(g, e), p);
}

proof fn lemma_chain_a()
    ensures
        pow(TWO_ADIC_ROOT as int, 256) % (DEFAULT_PRIME as int) == 9713644485405565297,
{
    let g = TWO_ADIC_ROOT as int;
    let p = DEFAULT_PRIME as int;
    lemma_pow1(g);
    lemma_small_mod(g as nat, p as nat);
    lemma_square_mod(g, 1, p, 1753635133440165772, 4614640910117430873);
    lemma_square_mod(g, 2, p, 4614640910117430873, 9123114210336311365);
    lemma_square_mod(g, 4, p, 9123114210336311365, 16116352524544190054);
    lemma_square_mod(g, 8, p, 16116352524544190054, 6414415596519834757);
    lemma_square_mod(g, 16, p, 6414415596519834757, 1213594585890690845);
    lemma_square_mod(g, 32, p, 1213594585890690845, 17096174751763063430);
    lemma_square_mod(g, 64, p, 17096174751763063430, 5456943929260765144);
    lemma_square_mod(g, 128, p, 5456943929260765144, 9713644485405565297);
}

proof fn lemma_chain_b()
    requires
        pow(TWO_ADIC_ROOT as int, 256) % (DEFAULT_PRIME as int) == 9713644485405565297,
    ensures
        pow(TWO_ADIC_ROOT as int, 65536) % (DEFAULT_PRIME as int) == 6115771955107415310,
{
    let g = TWO_ADIC_ROOT as int;
    let p = DEFAULT_PRIME as int;
    lemma_square_mod(g, 256, p, 9713644485405565297, 16905767614792059275);
    lemma_square_mod(g, 512, p, 16905767614792059275, 5416168637041100469);
    lemma_square_mod(g, 1024, p, 5416168637041100469, 17654865857378133588);
    lemma_square_mod(g, 2048, p, 17654865857378133588, 3511170319078647661);
    lemma_square_mod(g, 4096, p, 3511170319078647661, 18146160046829613826);
    lemma_square_mod(g, 8192, p, 18146160046829613826, 9306717745644682924);
    lemma_square_mod(g, 16384, p, 9306717745644682924, 12380578893860276750);
    lemma_square_mod(g, 32768, p, 12380578893860276750, 6115771955107415310);
}

proof fn lemma_chain_c()
    requires
        pow(TWO_ADIC_ROOT as int, 65536) % (DEFAULT_PRIME as int) == 6115771955107415310,
    ensures
        pow(TWO_ADIC_ROOT as int, 16777216) % (DEFAULT_PRIME as int) == 13797081185216407910,
{
    let g = TWO_ADIC_ROOT as int;
    let p = DEFAULT_PRIME as int;
    lemma_square_mod(g, 65536, p, 6115771955107415310, 17776499369601055404);
    lemma_square_mod(g, 131072, p, 17776499369601055404, 16207902636198568418);
    lemma_square_mod(g, 262144, p, 16207902636198568418, 1532612707718625687);
    lemma_square_mod(g, 524288, p, 1532612707718625687, 17492915097719143606);
    lemma_square_mod(g, 1048576, p, 17492915097719143606, 455906449640507599);
    lemma_square_mod(g, 2097152, p, 455906449640507599, 11353340290879379826);
    lemma_square_mod(g, 4194304, p, 11353340290879379826, 1803076106186727246);
    lemma_square_mod(g, 8388608, p, 1803076106186727246, 13797081185216407910);
}

proof fn lemma_chain_d()
    requires
        pow(TWO_ADIC_ROOT as int, 16777216) % (DEFAULT_PRIME as int) == 13797081185216407910,
    ensures
        pow(TWO_ADIC_ROOT as int, 4294967296) % (DEFAULT_PRIME as int) == 1,
        pow(TWO_ADIC_ROOT as int, 2147483648) % (DEFAULT_PRIME as int) == 18446744069414584320,
{
    let g = TWO_ADIC_ROOT as int;
    let p = DEFAULT_PRIME as int;
    lemma_square_mod(g, 16777216, p, 13797081185216407910, 17870292113338400769);
    lemma_square_mod(g, 33554432, p, 17870292113338400769, 549755813888);
    lemma_square_mod(g, 67108864, p, 549755813888, 70368744161280);
    lemma_square_mod(g, 134217728, p, 70368744161280, 17293822564807737345);
    lemma_square_mod(g, 268435456, p, 17293822564807737345, 18446744069397807105);
    lemma_square_mod(g, 536870912, p, 18446744069397807105, 281474976710656);
    lemma_square_mod(g, 1073741824, p, 281474976710656, 18446744069414584320);
    lemma_square_mod(g, 2147483648, p, 18446744069414584320, 1);
}

/// The generator of the two-adic subgroup has order `2^32`: its `2^32`-th
/// power is one and its `2^31`-th power is minus one.
pub proof fn lemma_two_adic_generator()
    ensures
        pow_mod(TWO_ADIC_ROOT as int, 4294967296, DEFAULT_PRIME as int) == 1,
        pow_mod(TWO_ADIC_ROOT as int, 2147483648, DEFAULT_PRIME as int) == DEFAULT_PRIME - 1,
{
    lemma_chain_a();
    lemma_chain_b();
    lemma_chain_c();
    lemma_chain_d();
}

/// The root of unity of order `n = 2^k`, for `k` from 1 to 32, is
/// primitive: its `n`-th power is one and its `n/2`-th power is minus
/// one, which is not one.
pub proof fn lemma_root_is_primitive(n: int, k: nat)
    requires
        1 <= k <= 32,
        n == pow2(k),
    ensures
        pow_mod(root_of_order(n), n as nat, DEFAULT_PRIME as int) == 1,
        pow_mod(root_of_order(n), (n / 2) as nat, DEFAULT_PRIME as int) == DEFAULT_PRIME - 1,
        pow_mod(root_of_order(n), (n / 2) as nat, DEFAULT_PRIME as int) != 1,
{
    let g = TWO_ADIC_ROOT as int;
    let p = DEFAULT_PRIME as int;
    let e = pow2((32 - k) as nat);
    lemma2_to64();
    lemma_pow2_adds((32 - k) as nat, k);
    lemma_pow2_pos(k);
    lemma_pow2_pos((32 - k) as nat);
    lemma_div_by_multiple(e as int, n);
    assert(TWO_ADIC_ORDER as int / n == e);
    lemma_pow2_unfold(k);
    let half = pow2((k - 1) as nat);
    assert(n / 2 == half);
    lemma_pow2_adds((32 - k) as nat, (k - 1) as nat);
    assert(e * half == 2147483648);
    lemma_two_adic_generator();
    // (g^e)^n = g^(e * n), and reducing the base first changes nothing.
    lemma_pow_mod_noop(pow(g, e), n as nat, p);
    lemma_pow_multiplies(g, e, n as nat);
    lemma_pow_mod_noop(pow(g, e), half, p);
    lemma_pow_multiplies(g, e, half);
}

} // verus!
