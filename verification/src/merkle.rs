//! Binary Merkle commitments to a power-of-two number of byte strings.
use vstd::prelude::*;
use vstd::arithmetic::div_mod::*;
use vstd::arithmetic::power2::*;

use crate::bytes::{byte_rows, bytes_equal, clone_bytes, concat_bytes, prefix_bytes};
use crate::hash::{blake2b512, blake2b512_digest};

verus! {

/// The length of a node of the tree, in bytes.
pub const NODE_LENGTH: usize = 32;

/// The first `n` bytes of a byte string; all of a shorter one.
pub open spec fn first_bytes(s: Seq<u8>, n: nat) -> Seq<u8> {
    if s.len() <= n {
        s
    } else {
        s.take(n as int)
    }
}

/// The first 32 bytes of the BLAKE2b-512 digest of a byte string.
pub open spec fn digest32(data: Seq<u8>) -> Seq<u8> {
    first_bytes(blake2b512(data), NODE_LENGTH as nat)
}

/// The node above two children: the first 32 bytes of the BLAKE2b-512
/// digest of the left child followed by the right child.
pub open spec fn node(left: Seq<u8>, right: Seq<u8>) -> Seq<u8> {
    digest32(left + right)
}

/// The two byte strings show a defect of the hash function: they differ
/// and have the same digest, or their digests differ in length.
pub open spec fn defect(x: Seq<u8>, y: Seq<u8>) -> bool {
    (x != y && digest32(x) == digest32(y)) || digest32(x).len() != digest32(y).len()
}

/// The hash function has a defect: a collision, or digests of two lengths.
pub open spec fn hash_defect() -> bool {
    exists|x: Seq<u8>, y: Seq<u8>| #[trigger] defect(x, y)
}

/// The root of the tree over `leaves`. A single leaf is its own root.
pub open spec fn merkle_root(leaves: Seq<Seq<u8>>) -> Seq<u8>
    decreases leaves.len(),
{
    if leaves.len() == 0 {
        Seq::empty()
    } else if leaves.len() == 1 {
        leaves[0]
    } else {
        let mid = (leaves.len() / 2) as int;
        node(merkle_root(leaves.take(mid)), merkle_root(leaves.skip(mid)))
    }
}

/// The authentication path of leaf `index`: the sibling of each node on the
/// way from the leaf to the root, lowest level first.
pub open spec fn merkle_path(index: int, leaves: Seq<Seq<u8>>) -> Seq<Seq<u8>>
    decreases leaves.len(),
{
    if leaves.len() <= 1 {
        Seq::empty()
    } else {
        let mid = (leaves.len() / 2) as int;
        if index < mid {
            merkle_path(index, leaves.take(mid)).push(merkle_root(leaves.skip(mid)))
        } else {
            merkle_path(index - mid, leaves.skip(mid)).push(merkle_root(leaves.take(mid)))
        }
    }
}

/// The node reached from `leaf` by hashing with each sibling of `path` in
/// turn; the bits of `index`, lowest first, tell on which side the sibling stands.
pub open spec fn climb(index: nat, path: Seq<Seq<u8>>, leaf: Seq<u8>) -> Seq<u8>
    decreases path.len(),
{
    if path.len() == 0 {
        leaf
    } else {
        let above = if index % 2 == 0 {
            node(leaf, path[0])
        } else {
            node(path[0], leaf)
        };
        climb(index / 2, path.skip(1), above)
    }
}

/// `path` authenticates `leaf` at position `index` under `root`.
pub open spec fn merkle_verify(root: Seq<u8>, index: nat, path: Seq<Seq<u8>>, leaf: Seq<u8>) -> bool {
    index < pow2(path.len()) && climb(index, path, leaf) == root
}

/// Half of a power of two above one is a power of two.
pub proof fn lemma_half_is_pow2(n: int)
    requires
        is_pow2(n),
        n >= 2,
    ensures
        is_pow2(n / 2),
        n == 2 * (n / 2),
        n / 2 >= 1,
{
    reveal(is_pow2);
}

/// A power of two is positive.
pub proof fn lemma_pow2_is_positive(n: int)
    requires
        is_pow2(n),
    ensures
        n >= 1,
{
    reveal(is_pow2);
}

/// Climbing a path that ends in `top` is climbing the rest and then taking
/// one more step, on the side that the next bit of the index tells.
pub proof fn lemma_climb_push(index: nat, path: Seq<Seq<u8>>, top: Seq<u8>, leaf: Seq<u8>)
    ensures
        climb(index, path.push(top), leaf) == climb(
            index / pow2(path.len()),
            seq![top],
            climb(index, path, leaf),
        ),
    decreases path.len(),
{
    lemma2_to64();
    if path.len() == 0 {
        assert(path.push(top) =~= seq![top]);
    } else {
        let above = if index % 2 == 0 {
            node(leaf, path[0])
        } else {
            node(path[0], leaf)
        };
        assert(path.push(top).skip(1) =~= path.skip(1).push(top));
        lemma_climb_push(index / 2, path.skip(1), top, above);
        lemma_pow2_unfold(path.len());
        lemma_pow2_pos((path.len() - 1) as nat);
        lemma_div_denominator(index as int, 2, pow2((path.len() - 1) as nat) as int);
    }
}

/// Only the lowest bits of the index, one for each sibling, matter to a climb.
pub proof fn lemma_climb_low_bits(index: nat, path: Seq<Seq<u8>>, leaf: Seq<u8>)
    ensures
        climb(index, path, leaf) == climb(index % pow2(path.len()), path, leaf),
    decreases path.len(),
{
    if path.len() > 0 {
        let m = pow2(path.len());
        let h = pow2((path.len() - 1) as nat);
        lemma_pow2_unfold(path.len());
        lemma_pow2_pos((path.len() - 1) as nat);
        let low = index % m;
        // index = m * q + low with m even, so the last bit and the halves agree modulo h.
        lemma_fundamental_div_mod(index as int, m as int);
        let q = index as int / (m as int);
        assert(index == 2 * (h * q) + low) by (nonlinear_arith)
            requires
                index == m * q + low,
                m == 2 * h,
        ;
        assert(index % 2 == low % 2);
        assert(index as int / 2 == h * q + (low as int) / 2);
        lemma_mod_bound(index as int, m as int);
        lemma_mod_multiples_vanish(q, (low as int) / 2, h as int);
        lemma_small_mod((low / 2) as nat, h);
        assert((index / 2) % h == low / 2);
        let above = if index % 2 == 0 {
            node(leaf, path[0])
        } else {
            node(path[0], leaf)
        };
        lemma_climb_low_bits(index / 2, path.skip(1), above);
        lemma_climb_low_bits(low / 2, path.skip(1), above);
        assert((low / 2) % h == low / 2);
        assert(path.skip(1).len() == path.len() - 1);
        assert(climb(index / 2, path.skip(1), above) == climb(low / 2, path.skip(1), above));
        assert(climb(index, path, leaf) == climb(index / 2, path.skip(1), above));
        assert(climb(low, path, leaf) == climb(low / 2, path.skip(1), above));
    } else {
        lemma2_to64();
        assert(climb(index, path, leaf) == leaf);
    }
}

/// The path of a leaf has one sibling for each level of the tree.
pub proof fn lemma_path_length(index: int, leaves: Seq<Seq<u8>>)
    requires
        is_pow2(leaves.len() as int),
    ensures
        pow2(merkle_path(index, leaves).len()) == leaves.len(),
    decreases leaves.len(),
{
    lemma2_to64();
    lemma_pow2_is_positive(leaves.len() as int);
    if leaves.len() > 1 {
        let mid = (leaves.len() / 2) as int;
        lemma_half_is_pow2(leaves.len() as int);
        if index < mid {
            lemma_path_length(index, leaves.take(mid));
            lemma_pow2_unfold(merkle_path(index, leaves).len());
        } else {
            lemma_path_length(index - mid, leaves.skip(mid));
            lemma_pow2_unfold(merkle_path(index, leaves).len());
        }
    }
}

/// Completeness: the path that `open` gives for a leaf verifies against
/// the root that `commit` gives, at every index of every tree.
pub proof fn lemma_merkle_completeness(leaves: Seq<Seq<u8>>, index: int)
    requires
        is_pow2(leaves.len() as int),
        0 <= index < leaves.len(),
    ensures
        merkle_verify(
            merkle_root(leaves),
            index as nat,
            merkle_path(index, leaves),
            leaves[index],
        ),
    decreases leaves.len(),
{
    lemma2_to64();
    lemma_path_length(index, leaves);
    if leaves.len() > 1 {
        let mid = (leaves.len() / 2) as int;
        lemma_half_is_pow2(leaves.len() as int);
        let left = leaves.take(mid);
        let right = leaves.skip(mid);
        if index < mid {
            let below = merkle_path(index, left);
            lemma_merkle_completeness(left, index);
            lemma_path_length(index, left);
            lemma_climb_push(index as nat, below, merkle_root(right), leaves[index]);
            lemma_basic_div(index, mid);
            assert(seq![merkle_root(right)].skip(1) =~= Seq::<Seq<u8>>::empty());
            reveal_with_fuel(climb, 2);
        } else {
            let below = merkle_path(index - mid, right);
            lemma_merkle_completeness(right, index - mid);
            lemma_path_length(index - mid, right);
            lemma_climb_push(index as nat, below, merkle_root(left), leaves[index]);
            lemma_climb_low_bits(index as nat, below, leaves[index]);
            lemma_fundamental_div_mod_converse(index, mid, 1, index - mid);
            assert(seq![merkle_root(left)].skip(1) =~= Seq::<Seq<u8>>::empty());
            reveal_with_fuel(climb, 2);
        }
    }
}

/// A path and a leaf verify against at most one root: changing the root
/// makes the verification fail.
pub proof fn lemma_merkle_root_binding(
    root: Seq<u8>,
    other: Seq<u8>,
    index: nat,
    path: Seq<Seq<u8>>,
    leaf: Seq<u8>,
)
    requires
        merkle_verify(root, index, path, leaf),
        other != root,
    ensures
        !merkle_verify(other, index, path, leaf),
{
}

/// Soundness, as far as the hash function carries it: two leaves of one
/// length with paths of the same lengths that verify at one index against
/// one root are the same leaf and the same path, or the hash function has
/// a defect. So changing a byte of the leaf or of a node of the path makes
/// the verification fail, unless a collision was found.
pub proof fn lemma_merkle_binding(
    index: nat,
    first_path: Seq<Seq<u8>>,
    first_leaf: Seq<u8>,
    second_path: Seq<Seq<u8>>,
    second_leaf: Seq<u8>,
)
    requires
        first_path.len() == second_path.len(),
        first_leaf.len() == second_leaf.len(),
        forall|k: int|
            0 <= k < first_path.len() ==> (#[trigger] first_path[k]).len() == second_path[k].len(),
        climb(index, first_path, first_leaf) == climb(index, second_path, second_leaf),
    ensures
        (first_leaf == second_leaf && first_path == second_path) || hash_defect(),
    decreases first_path.len(),
{
    if first_path.len() > 0 {
        let s1 = first_path[0];
        let s2 = second_path[0];
        let x1 = if index % 2 == 0 {
            first_leaf + s1
        } else {
            s1 + first_leaf
        };
        let x2 = if index % 2 == 0 {
            second_leaf + s2
        } else {
            s2 + second_leaf
        };
        let above1 = digest32(x1);
        let above2 = digest32(x2);
        let rest1 = first_path.skip(1);
        let rest2 = second_path.skip(1);
        assert(s1.len() == s2.len());
        assert forall|k: int| 0 <= k < rest1.len() implies (#[trigger] rest1[k]).len()
            == rest2[k].len() by {
            assert(first_path[k + 1].len() == second_path[k + 1].len());
        }
        if above1.len() != above2.len() {
            assert(defect(x1, x2));
        } else {
            lemma_merkle_binding(index / 2, rest1, above1, rest2, above2);
            if !hash_defect() {
                assert(above1 == above2 && rest1 == rest2);
                if x1 != x2 {
                    assert(defect(x1, x2));
                }
                // equal joins of parts of equal lengths have equal parts
                if index % 2 == 0 {
                    assert(first_leaf =~= x1.take(first_leaf.len() as int));
                    assert(second_leaf =~= x2.take(second_leaf.len() as int));
                    assert(s1 =~= x1.skip(first_leaf.len() as int));
                    assert(s2 =~= x2.skip(second_leaf.len() as int));
                } else {
                    assert(s1 =~= x1.take(s1.len() as int));
                    assert(s2 =~= x2.take(s2.len() as int));
                    assert(first_leaf =~= x1.skip(s1.len() as int));
                    assert(second_leaf =~= x2.skip(s2.len() as int));
                }
                assert(first_path =~= seq![s1] + rest1);
                assert(second_path =~= seq![s2] + rest2);
            }
        }
    } else {
        assert(first_path =~= second_path);
    }
}

/// Whether `n` is a power of two.
pub fn is_power_of_two(n: usize) -> (b: bool)
    ensures
        b == is_pow2(n as int),
{
    let mut rest: usize = n;
    proof {
        reveal(is_pow2);
    }
    while rest > 1 && rest % 2 == 0
        invariant
            is_pow2(rest as int) == is_pow2(n as int),
        decreases rest,
    {
        proof {
            reveal(is_pow2);
        }
        rest = rest / 2;
    }
    proof {
        reveal(is_pow2);
        if rest > 1 {
            assert(!is_pow2(rest as int));
        }
    }
    rest == 1
}

/// The node above two children.
pub fn node_hash(left: &[u8], right: &[u8]) -> (out: Vec<u8>)
    ensures
        out@ == node(left@, right@),
        out@.len() == NODE_LENGTH,
{
    let joined: Vec<u8> = concat_bytes(left, right);
    let digest: Vec<u8> = blake2b512_digest(joined.as_slice());
    prefix_bytes(digest.as_slice(), NODE_LENGTH)
}

fn commit_range(leafs: &[Vec<u8>], lo: usize, hi: usize) -> (out: Vec<u8>)
    requires
        lo < hi <= leafs@.len(),
        is_pow2(hi - lo),
    ensures
        out@ == merkle_root(byte_rows(leafs@).subrange(lo as int, hi as int)),
    decreases hi - lo,
{
    let ghost part = byte_rows(leafs@).subrange(lo as int, hi as int);
    if hi - lo == 1 {
        clone_bytes(leafs[lo].as_slice())
    } else {
        proof {
            lemma_half_is_pow2(hi - lo);
        }
        let mid: usize = lo + (hi - lo) / 2;
        let left: Vec<u8> = commit_range(leafs, lo, mid);
        let right: Vec<u8> = commit_range(leafs, mid, hi);
        proof {
            assert(part.take(mid - lo) =~= byte_rows(leafs@).subrange(lo as int, mid as int));
            assert(part.skip(mid - lo) =~= byte_rows(leafs@).subrange(mid as int, hi as int));
        }
        node_hash(left.as_slice(), right.as_slice())
    }
}

fn open_range(index: usize, leafs: &[Vec<u8>], lo: usize, hi: usize) -> (path: Vec<Vec<u8>>)
    requires
        lo < hi <= leafs@.len(),
        is_pow2(hi - lo),
        index < hi - lo,
    ensures
        byte_rows(path@) == merkle_path(index as int, byte_rows(leafs@).subrange(lo as int, hi as int)),
    decreases hi - lo,
{
    let ghost part = byte_rows(leafs@).subrange(lo as int, hi as int);
    if hi - lo == 1 {
        let path: Vec<Vec<u8>> = Vec::new();
        assert(byte_rows(path@) =~= Seq::<Seq<u8>>::empty());
        path
    } else {
        proof {
            lemma_half_is_pow2(hi - lo);
            assert(part.take((hi - lo) / 2) =~= byte_rows(leafs@).subrange(
                lo as int,
                lo + (hi - lo) / 2,
            ));
            assert(part.skip((hi - lo) / 2) =~= byte_rows(leafs@).subrange(
                lo + (hi - lo) / 2,
                hi as int,
            ));
        }
        let half: usize = (hi - lo) / 2;
        let mid: usize = lo + half;
        if index < half {
            let mut path: Vec<Vec<u8>> = open_range(index, leafs, lo, mid);
            let sibling: Vec<u8> = commit_range(leafs, mid, hi);
            let ghost before = path@;
            path.push(sibling);
            assert(byte_rows(path@) =~= byte_rows(before).push(sibling@));
            path
        } else {
            let mut path: Vec<Vec<u8>> = open_range(index - half, leafs, mid, hi);
            let sibling: Vec<u8> = commit_range(leafs, lo, mid);
            let ghost before = path@;
            path.push(sibling);
            assert(byte_rows(path@) =~= byte_rows(before).push(sibling@));
            path
        }
    }
}

/// The namespace of the commitment functions.
pub struct Merkle;

impl Merkle {
    /// The root of the tree over `leafs`.
    pub fn commit(leafs: &[Vec<u8>]) -> (root: Vec<u8>)
        requires
            is_pow2(leafs@.len() as int),
        ensures
            root@ == merkle_root(byte_rows(leafs@)),
    {
        proof {
            lemma_pow2_is_positive(leafs@.len() as int);
            assert(byte_rows(leafs@).subrange(0, leafs@.len() as int) =~= byte_rows(leafs@));
        }
        commit_range(leafs, 0, leafs.len())
    }

    /// The authentication path of the leaf at `index`.
    pub fn open(index: usize, leafs: &[Vec<u8>]) -> (path: Vec<Vec<u8>>)
        requires
            is_pow2(leafs@.len() as int),
            index < leafs@.len(),
        ensures
            byte_rows(path@) == merkle_path(index as int, byte_rows(leafs@)),
            merkle_verify(
                merkle_root(byte_rows(leafs@)),
                index as nat,
                byte_rows(path@),
                leafs@[index as int]@,
            ),
    {
        proof {
            assert(byte_rows(leafs@).subrange(0, leafs@.len() as int) =~= byte_rows(leafs@));
            lemma_merkle_completeness(byte_rows(leafs@), index as int);
        }
        open_range(index, leafs, 0, leafs.len())
    }

    /// Whether `path` authenticates `leaf` at position `index` under
    /// `root`. An index that the path has not enough levels for fails.
    pub fn verify(root: &[u8], index: usize, path: &[Vec<u8>], leaf: &[u8]) -> (ok: bool)
        ensures
            ok == merkle_verify(root@, index as nat, byte_rows(path@), leaf@),
    {
        let mut current: Vec<u8> = clone_bytes(leaf);
        let mut idx: usize = index;
        let mut k: usize = 0;
        proof {
            lemma2_to64();
            assert(byte_rows(path@).skip(0) =~= byte_rows(path@));
        }
        while k < path.len()
            invariant
                k <= path@.len(),
                idx == index as int / pow2(k as nat) as int,
                climb(idx as nat, byte_rows(path@).skip(k as int), current@) == climb(
                    index as nat,
                    byte_rows(path@),
                    leaf@,
                ),
            decreases path@.len() - k,
        {
            proof {
                assert(byte_rows(path@).skip(k as int).skip(1) =~= byte_rows(path@).skip(k + 1));
                lemma_pow2_unfold((k + 1) as nat);
                lemma_pow2_pos(k as nat);
                lemma_div_denominator(index as int, pow2(k as nat) as int, 2);
            }
            if idx % 2 == 0 {
                current = node_hash(current.as_slice(), path[k].as_slice());
            } else {
                current = node_hash(path[k].as_slice(), current.as_slice());
            }
            idx = idx / 2;
            k = k + 1;
        }
        proof {
            let m = pow2(path@.len()) as int;
            lemma_pow2_pos(path@.len());
            if index < m {
                lemma_basic_div(index as int, m);
            } else {
                lemma_div_non_zero(index as int, m);
            }
        }
        idx == 0 && bytes_equal(current.as_slice(), root)
    }
}

} // verus!
