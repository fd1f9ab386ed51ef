use blake2::{Blake2b512, Digest};
use el_stark::merkle::{node_hash, Merkle};

fn leaves(n: usize) -> Vec<Vec<u8>> {
    (0..n).map(|i| vec![b'a' + i as u8]).collect()
}

fn h(left: &[u8], right: &[u8]) -> Vec<u8> {
    let mut joined = left.to_vec();
    joined.extend_from_slice(right);
    Blake2b512::digest(&joined)[..32].to_vec()
}

#[test]
fn node_is_truncated_blake2b() {
    assert_eq!(node_hash(b"left", b"right"), h(b"left", b"right"));
    assert_eq!(node_hash(b"", b"").len(), 32);
    assert_ne!(node_hash(b"left", b"right"), b"leftright".to_vec());
}

#[test]
fn single_leaf_is_its_own_root() {
    let l = vec![b"x".to_vec()];
    assert_eq!(Merkle::commit(&l), b"x".to_vec());
    assert_eq!(Merkle::open(0, &l), Vec::<Vec<u8>>::new());
    assert!(Merkle::verify(b"x", 0, &[], b"x"));
    assert!(!Merkle::verify(b"x", 0, &[], b"y"));
    assert!(!Merkle::verify(b"x", 1, &[], b"x"));
}

#[test]
fn two_leaves() {
    let l = leaves(2);
    assert_eq!(Merkle::commit(&l), h(b"a", b"b"));
    assert_eq!(Merkle::open(0, &l), vec![b"b".to_vec()]);
    assert_eq!(Merkle::open(1, &l), vec![b"a".to_vec()]);
}

#[test]
fn four_leaves_structure() {
    let l = leaves(4);
    let left = h(b"a", b"b");
    let right = h(b"c", b"d");
    assert_eq!(Merkle::commit(&l), h(&left, &right));
    assert_eq!(Merkle::open(2, &l), vec![b"d".to_vec(), left.clone()]);
    assert_eq!(Merkle::open(1, &l), vec![b"a".to_vec(), right.clone()]);
}

#[test]
fn eight_leaves_all_indices_verify() {
    let l = leaves(8);
    let root = Merkle::commit(&l);
    for i in 0..8 {
        let path = Merkle::open(i, &l);
        assert_eq!(path.len(), 3);
        assert!(Merkle::verify(&root, i, &path, &l[i]));
    }
}

#[test]
fn substituted_leaf_changes_the_root() {
    let l = leaves(8);
    let root = Merkle::commit(&l);
    let mut changed = l.clone();
    changed[3] = b"z".to_vec();
    let new_root = Merkle::commit(&changed);
    assert_ne!(root, new_root);
    let path = Merkle::open(3, &changed);
    assert!(Merkle::verify(&new_root, 3, &path, &changed[3]));
    assert!(!Merkle::verify(&root, 3, &path, &changed[3]));
}

#[test]
fn mutations_fail_verification() {
    let l = leaves(8);
    let root = Merkle::commit(&l);
    for i in 0..8 {
        let path = Merkle::open(i, &l);
        // the leaf
        let mut leaf = l[i].clone();
        leaf[0] ^= 1;
        assert!(!Merkle::verify(&root, i, &path, &leaf));
        // each node of the path
        for k in 0..path.len() {
            let mut bad = path.clone();
            bad[k][0] ^= 0x80;
            assert!(!Merkle::verify(&root, i, &bad, &l[i]));
        }
        // the root
        let mut bad_root = root.clone();
        bad_root[31] ^= 1;
        assert!(!Merkle::verify(&bad_root, i, &path, &l[i]));
        // another index
        assert!(!Merkle::verify(&root, (i + 1) % 8, &path, &l[i]));
    }
}

#[test]
fn index_out_of_range_fails_closed() {
    let l = leaves(4);
    let root = Merkle::commit(&l);
    let path = Merkle::open(1, &l);
    assert!(Merkle::verify(&root, 1, &path, &l[1]));
    assert!(!Merkle::verify(&root, 5, &path, &l[1]));
    assert!(!Merkle::verify(&root, 4, &path, &l[0]));
    assert!(!Merkle::verify(&root, usize::MAX, &path, &l[1]));
}
