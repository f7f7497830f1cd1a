use merkle_sum_tree::hashing::{int_to_u8_slice, merge_u8_arrays};
use merkle_sum_tree::{
    AllotmentProof, BalanceCommitment, ExclusiveAllotmentProof, MerkleError, MerkleSumTree,
    MerkleTree, SumCommitment, SUM_LIMIT,
};
use sha2::{Digest, Sha256};

fn sha(bytes: &[u8]) -> [u8; 32] {
    let mut hasher = Sha256::new();
    hasher.update(bytes);
    hasher.finalize().into()
}

fn hex(bytes: &[u8]) -> String {
    let mut out = String::new();
    for b in bytes {
        out.push_str(&format!("{:02x}", b));
    }
    out
}

fn leaf(amount: u64) -> BalanceCommitment {
    BalanceCommitment::new(amount, sha(&amount.to_be_bytes()))
}

fn parent(left: &BalanceCommitment, right: &BalanceCommitment) -> BalanceCommitment {
    let mut block = Vec::new();
    block.extend_from_slice(&left.digest());
    block.extend_from_slice(&right.digest());
    BalanceCommitment::new(left.amount() + right.amount(), sha(&block))
}

fn build(values: Vec<u64>) -> MerkleSumTree {
    match MerkleSumTree::new(values) {
        Ok(tree) => tree,
        Err(e) => panic!("tree rejected: {:?}", e),
    }
}

fn prove(tree: &MerkleSumTree, position: usize) -> AllotmentProof {
    match tree.prove(position) {
        Ok(p) => p,
        Err(e) => panic!("no proof: {:?}", e),
    }
}

fn path_of(p: &AllotmentProof) -> Vec<BalanceCommitment> {
    let mut path = Vec::new();
    let mut height: u8 = 0;
    while let Some(c) = p.sibling(height) {
        path.push(c);
        height += 1;
    }
    path
}

fn sixteen() -> Vec<u64> {
    vec![1, 2, 3, 4, 5, 6, 7, 8, 9, 10, 11, 12, 13, 14, 15, 16]
}

#[test]
fn big_endian_encoding_is_exact() {
    assert_eq!(int_to_u8_slice(0), [0, 0, 0, 0, 0, 0, 0, 0]);
    assert_eq!(int_to_u8_slice(300), [0, 0, 0, 0, 0, 0, 1, 44]);
    assert_eq!(
        int_to_u8_slice(0x0102030405060708),
        [1, 2, 3, 4, 5, 6, 7, 8]
    );
    assert_eq!(int_to_u8_slice(u64::MAX), [255; 8]);
    assert_eq!(int_to_u8_slice(0x6162636465666768), *b"abcdefgh");
    for v in [1u64, 255, 256, 65535, 1 << 32, 1_000_000_000, u64::MAX - 1] {
        assert_eq!(int_to_u8_slice(v), v.to_be_bytes());
    }
}

#[test]
fn merge_puts_the_first_digest_first() {
    let mut a = [0u8; 32];
    let mut b = [0u8; 32];
    for i in 0..32 {
        a[i] = i as u8;
        b[i] = 100 + i as u8;
    }
    let merged = merge_u8_arrays(a, b);
    for i in 0..32 {
        assert_eq!(merged[i], i as u8);
        assert_eq!(merged[i + 32], 100 + i as u8);
    }
    assert_ne!(merge_u8_arrays(a, b), merge_u8_arrays(b, a));
}

#[test]
fn commitment_returns_its_parts() {
    let c = BalanceCommitment::new(42, [7; 32]);
    assert_eq!(c.amount(), 42);
    assert_eq!(c.digest(), [7; 32]);
    let d = c.clone();
    assert_eq!(d.amount(), 42);
    assert_eq!(d.digest(), [7; 32]);
}

#[test]
fn commitments_compare_by_total_and_digest() {
    let c = BalanceCommitment::new(42, [7; 32]);
    assert!(c.same_as(&BalanceCommitment::new(42, [7; 32])));
    assert!(!c.same_as(&BalanceCommitment::new(43, [7; 32])));
    let mut other = [7u8; 32];
    other[31] = 8;
    assert!(!c.same_as(&BalanceCommitment::new(42, other)));
    other = [7u8; 32];
    other[0] = 6;
    assert!(!c.same_as(&BalanceCommitment::new(42, other)));
}

#[test]
fn leaf_digest_is_sha256_of_the_big_endian_balance() {
    let tree = build(vec![0x6162636465666768 % 1_000_000_000]);
    let root = tree.commit();
    assert_eq!(root.digest(), sha(&(0x6162636465666768u64 % 1_000_000_000).to_be_bytes()));

    let tree = build(vec![300]);
    assert_eq!(
        hex(&tree.commit().digest()),
        "df0dc4024f570e4dbeee6d288de0c51d6934d20765a798c4677684edc3dbddf9"
    );
    let tree = build(vec![7]);
    assert_eq!(
        hex(&tree.commit().digest()),
        "a3eb8db89fc5123ccfd49585059f292bc40a1c0d550b860f24f84efb4760fbf2"
    );
}

#[test]
fn single_leaf_tree_is_its_leaf() {
    let tree = build(vec![300]);
    let root = tree.commit();
    assert_eq!(root.amount(), 300);
    assert_eq!(root.digest(), leaf(300).digest());
    let p = prove(&tree, 0);
    assert_eq!(p.position(), 0);
    assert_eq!(p.path_len(), 0);
    assert!(p.sibling(0).is_none());
    assert!(p.node().same_as(&root));
    assert!(p.verify(&root));
    assert_eq!(tree.prove(1).err(), Some(MerkleError::InvalidPosition));
}

#[test]
fn two_leaf_root_combines_left_then_right() {
    let tree = build(vec![10, 20]);
    let root = tree.commit();
    assert_eq!(root.amount(), 30);
    assert_eq!(
        hex(&root.digest()),
        "c7aef4277b2bb218e68c6b7ac98556370ee573e3c5c3173dc04f12ab050bedfb"
    );
    assert!(root.same_as(&parent(&leaf(10), &leaf(20))));
    assert!(!root.same_as(&parent(&leaf(20), &leaf(10))));
}

#[test]
fn sixteen_leaves_scenario() {
    let tree = build(sixteen());
    let root = tree.commit();
    assert_eq!(root.amount(), 136);
    assert_eq!(
        hex(&root.digest()),
        "e5a64b1670d980698f03ab24cdcf4ede8409e174a5d28688e1c0e21e59f65891"
    );

    let p = prove(&tree, 3);
    assert_eq!(p.position(), 3);
    assert_eq!(p.node().amount(), 4);
    assert_eq!(p.node().digest(), leaf(4).digest());
    assert!(p.verify(&root));

    let forged = AllotmentProof::new(3, path_of(&p), BalanceCommitment::new(5, p.node().digest()));
    assert!(!forged.verify(&root));
}

#[test]
fn proof_path_runs_from_the_leaf_upwards() {
    let tree = build(sixteen());
    let p = prove(&tree, 3);
    assert_eq!(p.path_len(), 4);
    let expected = [
        (3u64, "d5688a52d55a02ec4aea5ec1eadfffe1c9e0ee6a4ddbe2377f98326d42dfc975"),
        (3, "1c4e119923ccaea7ab71c5161e3ff505f5fd4087aa9a827c8509a8f8804d86d9"),
        (26, "665323228054c09dcb02dc9b0cddf5b7a0cce1b0497210e10b00256e2da92f7b"),
        (100, "00f7702377d434d601b463fdb1da2e6afd83e010f813813f2dc02142d90d33fe"),
    ];
    for (height, (amount, digest)) in expected.iter().enumerate() {
        let s = p.sibling(height as u8).expect("sibling");
        assert_eq!(s.amount(), *amount);
        assert_eq!(hex(&s.digest()), *digest);
    }
    assert!(p.sibling(4).is_none());
    assert!(p.sibling(255).is_none());
}

#[test]
fn root_total_is_the_sum_of_the_leaves() {
    for values in [
        vec![5u64],
        vec![0, 0],
        vec![1, 2, 3, 4],
        vec![7, 0, 9, 100, 3, 3, 3, 3],
        sixteen(),
        vec![250_000_000; 4],
    ] {
        let total: u64 = values.iter().sum();
        assert_eq!(build(values).commit().amount(), total);
    }
}

#[test]
fn same_leaves_give_the_same_root() {
    let a = build(sixteen()).commit();
    let b = build(sixteen()).commit();
    assert_eq!(a.amount(), b.amount());
    assert_eq!(a.digest(), b.digest());
    let mut swapped = sixteen();
    swapped.swap(0, 1);
    let c = build(swapped).commit();
    assert_eq!(c.amount(), a.amount());
    assert_ne!(c.digest(), a.digest());
}

#[test]
fn every_proof_verifies_against_its_root() {
    for exponent in 0..6u32 {
        let n = 1usize << exponent;
        let values: Vec<u64> = (0..n as u64).map(|i| i * 3 + 1).collect();
        let tree = build(values.clone());
        let root = tree.commit();
        for position in 0..n {
            let p = prove(&tree, position);
            assert_eq!(p.position(), position);
            assert_eq!(p.path_len(), exponent as usize);
            assert_eq!(p.node().amount(), values[position]);
            assert!(p.verify(&root));
        }
        assert_eq!(tree.prove(n).err(), Some(MerkleError::InvalidPosition));
    }
}

#[test]
fn tampered_proofs_are_rejected() {
    let tree = build(sixteen());
    let root = tree.commit();
    let p = prove(&tree, 3);
    let path = path_of(&p);

    let mut digest = p.node().digest();
    digest[0] ^= 1;
    assert!(!AllotmentProof::new(3, path.clone(), BalanceCommitment::new(4, digest)).verify(&root));

    for height in 0..path.len() {
        let mut bent = path.clone();
        bent[height] = BalanceCommitment::new(path[height].amount() + 1, path[height].digest());
        assert!(!AllotmentProof::new(3, bent, p.node()).verify(&root));

        let mut bent = path.clone();
        let mut d = path[height].digest();
        d[31] ^= 0x80;
        bent[height] = BalanceCommitment::new(path[height].amount(), d);
        assert!(!AllotmentProof::new(3, bent, p.node()).verify(&root));
    }

    for other in [0usize, 1, 2, 7, 11, 15] {
        assert!(!AllotmentProof::new(other, path.clone(), p.node()).verify(&root));
    }

    let mut short = path.clone();
    short.pop();
    assert!(!AllotmentProof::new(3, short, p.node()).verify(&root));
    let mut long = path.clone();
    long.push(leaf(0));
    assert!(!AllotmentProof::new(3, long, p.node()).verify(&root));

    let wrong_root = BalanceCommitment::new(137, root.digest());
    assert!(!p.verify(&wrong_root));
}

#[test]
fn verify_reports_an_overflowing_total_as_failure() {
    let node = BalanceCommitment::new(u64::MAX, [1; 32]);
    let path = vec![BalanceCommitment::new(1, [2; 32])];
    let p = AllotmentProof::new(0, path, node);
    assert!(!p.verify(&BalanceCommitment::new(0, [0; 32])));
    assert!(!p.verify(&BalanceCommitment::new(u64::MAX, [1; 32])));
}

#[test]
fn verify_follows_the_position_bits() {
    let a = BalanceCommitment::new(1, [1; 32]);
    let b = BalanceCommitment::new(2, [2; 32]);
    let c = BalanceCommitment::new(4, [3; 32]);
    let ab = parent(&a, &b);
    let ba = parent(&b, &a);
    assert!(AllotmentProof::new(0, vec![b.clone()], a.clone()).verify(&ab));
    assert!(AllotmentProof::new(1, vec![b.clone()], a.clone()).verify(&ba));
    assert!(!AllotmentProof::new(1, vec![b.clone()], a.clone()).verify(&ab));
    let top = parent(&c, &ab);
    assert!(AllotmentProof::new(2, vec![b.clone(), c.clone()], a.clone()).verify(&top));
    assert!(!AllotmentProof::new(0, vec![b.clone(), c.clone()], a.clone()).verify(&top));
    let empty = AllotmentProof::new(9, Vec::new(), a.clone());
    assert!(empty.verify(&a));
    assert!(!empty.verify(&b));
}

#[test]
fn sibling_is_absent_beyond_the_path() {
    let a = BalanceCommitment::new(1, [1; 32]);
    let p = AllotmentProof::new(0, vec![a.clone(), a.clone()], a.clone());
    assert!(p.sibling(0).is_some());
    assert!(p.sibling(1).is_some());
    assert!(p.sibling(2).is_none());
    let long = AllotmentProof::new(0, vec![a.clone(); 256], a.clone());
    assert_eq!(long.path_len(), 256);
    assert!(long.sibling(0).is_some());
    assert!(long.sibling(255).is_some());
}

#[test]
fn sizes_that_are_not_powers_of_two_are_rejected() {
    assert_eq!(MerkleSumTree::new(vec![1, 2, 3]).err(), Some(MerkleError::InvalidInputSize));
    assert_eq!(MerkleSumTree::new(Vec::new()).err(), Some(MerkleError::InvalidInputSize));
    assert_eq!(MerkleSumTree::new(vec![1; 5]).err(), Some(MerkleError::InvalidInputSize));
    assert_eq!(MerkleSumTree::new(vec![1; 6]).err(), Some(MerkleError::InvalidInputSize));
    assert_eq!(MerkleSumTree::new(vec![1; 12]).err(), Some(MerkleError::InvalidInputSize));
    assert_eq!(
        MerkleSumTree::new(vec![u64::MAX, u64::MAX, u64::MAX]).err(),
        Some(MerkleError::InvalidInputSize)
    );
    assert!(MerkleSumTree::new(vec![1; 8]).is_ok());
}

#[test]
fn totals_above_the_limit_are_rejected() {
    assert_eq!(SUM_LIMIT, 1_000_000_000);
    assert!(MerkleSumTree::new(vec![1_000_000_000]).is_ok());
    assert_eq!(
        MerkleSumTree::new(vec![1_000_000_001]).err(),
        Some(MerkleError::SumExceedsLimit)
    );
    assert!(MerkleSumTree::new(vec![500_000_000, 500_000_000]).is_ok());
    assert_eq!(
        MerkleSumTree::new(vec![500_000_000, 500_000_001]).err(),
        Some(MerkleError::SumExceedsLimit)
    );
    assert_eq!(
        MerkleSumTree::new(vec![u64::MAX, 1]).err(),
        Some(MerkleError::SumExceedsLimit)
    );
    assert_eq!(
        MerkleSumTree::new(vec![u64::MAX, u64::MAX, u64::MAX, 3]).err(),
        Some(MerkleError::SumExceedsLimit)
    );
}

#[test]
fn positions_outside_the_tree_are_rejected() {
    let tree = build(sixteen());
    assert_eq!(tree.prove(16).err(), Some(MerkleError::InvalidPosition));
    assert_eq!(tree.prove(17).err(), Some(MerkleError::InvalidPosition));
    assert_eq!(tree.prove(usize::MAX).err(), Some(MerkleError::InvalidPosition));
    assert!(tree.prove(15).is_ok());
    assert!(tree.prove(0).is_ok());
}

#[test]
fn leaf_and_parent_build_the_tree_by_hand() {
    let a = BalanceCommitment::leaf(10);
    let b = BalanceCommitment::leaf(20);
    assert_eq!(a.amount(), 10);
    assert_eq!(a.digest(), sha(&10u64.to_be_bytes()));
    assert!(a.same_as(&leaf(10)));
    let top = BalanceCommitment::parent(&a, &b).expect("fits");
    assert_eq!(top.amount(), 30);
    assert_eq!(
        hex(&top.digest()),
        "c7aef4277b2bb218e68c6b7ac98556370ee573e3c5c3173dc04f12ab050bedfb"
    );
    assert!(top.same_as(&build(vec![10, 20]).commit()));
    let swapped = BalanceCommitment::parent(&b, &a).expect("fits");
    assert_eq!(swapped.amount(), 30);
    assert_ne!(swapped.digest(), top.digest());
}

#[test]
fn parent_is_absent_when_the_total_overflows() {
    let big = BalanceCommitment::new(u64::MAX, [0; 32]);
    let one = BalanceCommitment::new(1, [0; 32]);
    let zero = BalanceCommitment::new(0, [0; 32]);
    assert!(BalanceCommitment::parent(&big, &one).is_none());
    assert!(BalanceCommitment::parent(&one, &big).is_none());
    let edge = BalanceCommitment::parent(&big, &zero).expect("fits");
    assert_eq!(edge.amount(), u64::MAX);
}

#[test]
fn storage_lays_the_rows_out_root_first() {
    let tree = build(vec![1, 2, 3, 4]);
    assert_eq!(tree.size(), 7);
    let amounts: Vec<u64> = (0..7).map(|i| tree.node(i).expect("slot").amount()).collect();
    assert_eq!(amounts, vec![10, 3, 7, 1, 2, 3, 4]);
    assert!(tree.node(7).is_none());
    assert!(tree.node(usize::MAX).is_none());
    for i in 0..4 {
        assert!(tree.node(3 + i).expect("leaf").same_as(&leaf(i as u64 + 1)));
    }
    for i in 0..3 {
        let left = tree.node(2 * i + 1).expect("left");
        let right = tree.node(2 * i + 2).expect("right");
        assert!(tree.node(i).expect("inner").same_as(&parent(&left, &right)));
    }
    assert!(tree.node(0).expect("root").same_as(&tree.commit()));

    assert_eq!(build(vec![9]).size(), 1);
    assert_eq!(build(sixteen()).size(), 31);
}

#[test]
fn sideways_order_is_right_then_node_then_left() {
    assert_eq!(build(vec![9]).sideways(), vec![(0, 0)]);
    assert_eq!(build(vec![1, 2]).sideways(), vec![(2, 1), (0, 0), (1, 1)]);
    assert_eq!(
        build(vec![1, 2, 3, 4]).sideways(),
        vec![(6, 2), (2, 1), (5, 2), (0, 0), (4, 2), (1, 1), (3, 2)]
    );
    let order = build(sixteen()).sideways();
    assert_eq!(order.len(), 31);
    assert_eq!(order[0], (30, 4));
    assert_eq!(order[15], (0, 0));
    assert_eq!(order[30], (15, 4));
}

#[test]
fn errors_say_what_went_wrong() {
    assert_eq!(MerkleError::InvalidInputSize.message(), "Input size must be a power of 2");
    assert_eq!(
        MerkleError::SumExceedsLimit.message(),
        "Sum of input values exceeds 1,000,000,000"
    );
    assert_eq!(MerkleError::InvalidPosition.message(), "Invalid position for proof");
}

#[test]
fn position_bits_above_the_path_are_not_read() {
    let tree = build(sixteen());
    let root = tree.commit();
    let p = prove(&tree, 3);
    let shifted = AllotmentProof::new(3 + 16, path_of(&p), p.node());
    assert!(shifted.verify(&root));
    let far = AllotmentProof::new(3 + 256, path_of(&p), p.node());
    assert!(far.verify(&root));
}

#[test]
fn equal_neighbours_cannot_be_told_apart() {
    let tree = build(vec![5, 5]);
    let root = tree.commit();
    let p = prove(&tree, 0);
    assert!(p.verify(&root));
    let flipped = AllotmentProof::new(1, path_of(&p), p.node());
    assert!(flipped.verify(&root));
}
