//! What holds of every tree and of every proof, stated over the model.

use crate::hashing::sha256;
use crate::model::{
    allotment_of, ancestor, claimed_root, climb, combine, is_power_of_two, leaf_commitment,
    lemma_ancestor_in_row, lemma_climb_amount, lemma_level_len, lemma_row_len, level, log2,
    merkle_root, pair_up, sibling_of, total, Allotment, Commitment,
};
use crate::tree::MerkleSumTree;
use vstd::prelude::*;

verus! {

/// Determinism: two trees over the same balances store the same commitments
/// in every slot, the root included.
pub proof fn lemma_leaves_determine_tree(a: MerkleSumTree, b: MerkleSumTree)
    requires
        a.wf(),
        b.wf(),
        a@ == b@,
    ensures
        a.nodes() == b.nodes(),
        a.nodes()[0] == b.nodes()[0],
{
    a.lemma_storage();
    b.lemma_storage();
}

/// From the ancestor of a leaf at any height, the rest of the leaf's path
/// climbs to the root.
proof fn lemma_climb_from(leaves: Seq<u64>, position: nat, height: nat)
    requires
        is_power_of_two(leaves.len()),
        position < leaves.len(),
        height <= log2(leaves.len()),
    ensures
        climb(
            level(leaves, height)[ancestor(position, height) as int],
            allotment_of(leaves, position).path.skip(height as int),
            ancestor(position, height),
        ) == merkle_root(leaves),
    decreases log2(leaves.len()) - height,
{
    let n = leaves.len();
    let path = allotment_of(leaves, position).path;
    let here = ancestor(position, height);
    lemma_row_len(n, height);
    lemma_level_len(leaves, height);
    lemma_ancestor_in_row(n, position, height);
    if height < log2(n) {
        lemma_level_len(leaves, height + 1);
        lemma_row_len(n, height + 1);
        lemma_ancestor_in_row(n, position, height + 1);
        lemma_climb_from(leaves, position, height + 1);
        let tail = path.skip(height as int);
        assert(tail[0] == level(leaves, height)[sibling_of(here) as int]);
        assert(tail.drop_first() =~= path.skip(height as int + 1));
        assert(ancestor(position, height + 1) == here / 2);
    }
}

/// Completeness: the proof of any leaf of a tree climbs to the root of that
/// tree, over a path as long as the tree is high.
pub proof fn lemma_issued_proof_verifies(leaves: Seq<u64>, position: nat)
    requires
        is_power_of_two(leaves.len()),
        position < leaves.len(),
    ensures
        claimed_root(allotment_of(leaves, position)) == merkle_root(leaves),
        allotment_of(leaves, position).path.len() == log2(leaves.len()),
{
    lemma_climb_from(leaves, position, 0);
    let path = allotment_of(leaves, position).path;
    assert(path.skip(0) =~= path);
}

/// A tree over a single balance is that balance's commitment, and the proof
/// of its only leaf has an empty path and leads to the root.
pub proof fn lemma_single_leaf(leaves: Seq<u64>)
    requires
        leaves.len() == 1,
    ensures
        merkle_root(leaves) == leaf_commitment(leaves[0]),
        allotment_of(leaves, 0).path.len() == 0,
        claimed_root(allotment_of(leaves, 0)) == merkle_root(leaves),
{
}

/// The totals along a path with one entry replaced.
proof fn lemma_total_update(path: Seq<Commitment>, height: int, entry: Commitment)
    requires
        0 <= height < path.len(),
    ensures
        total(path.update(height, entry)) + path[height].amount == total(path) + entry.amount,
    decreases path.len(),
{
    let changed = path.update(height, entry);
    if height == 0 {
        assert(changed.drop_first() =~= path.drop_first());
    } else {
        lemma_total_update(path.drop_first(), height - 1, entry);
        assert(changed.drop_first() =~= path.drop_first().update(height - 1, entry));
    }
}

/// A proof that leads to a root no longer does once the total of its leaf is
/// changed.
pub proof fn lemma_forged_leaf_total_is_rejected(a: Allotment, amount: nat, root: Commitment)
    requires
        claimed_root(a) == root,
        amount != a.node.amount,
    ensures
        claimed_root(
            Allotment { node: Commitment { amount, digest: a.node.digest }, ..a },
        ) != root,
{
    let forged = Commitment { amount, digest: a.node.digest };
    lemma_climb_amount(a.node, a.path, a.position);
    lemma_climb_amount(forged, a.path, a.position);
}

/// A proof that leads to a root no longer does once the total of one of its
/// siblings is changed.
pub proof fn lemma_forged_sibling_total_is_rejected(
    a: Allotment,
    height: nat,
    amount: nat,
    root: Commitment,
)
    requires
        claimed_root(a) == root,
        height < a.path.len(),
        amount != a.path[height as int].amount,
    ensures
        claimed_root(
            Allotment {
                path: a.path.update(
                    height as int,
                    Commitment { amount, digest: a.path[height as int].digest },
                ),
                ..a
            },
        ) != root,
{
    let entry = Commitment { amount, digest: a.path[height as int].digest };
    lemma_total_update(a.path, height as int, entry);
    lemma_climb_amount(a.node, a.path, a.position);
    lemma_climb_amount(a.node, a.path.update(height as int, entry), a.position);
}

/// Two different byte strings have the same SHA-256 digest.
pub open spec fn sha256_collides() -> bool {
    exists|x: Seq<u8>, y: Seq<u8>| x != y && #[trigger] sha256(x) == #[trigger] sha256(y)
}

/// Two pairs of strings, the second halves equally long, that differ somewhere
/// differ when joined.
proof fn lemma_joined_differ(l1: Seq<u8>, r1: Seq<u8>, l2: Seq<u8>, r2: Seq<u8>)
    requires
        l1.len() == l2.len() || r1.len() == r2.len(),
        l1 != l2 || r1 != r2,
    ensures
        l1 + r1 != l2 + r2,
{
    if l1 + r1 == l2 + r2 {
        assert((l1 + r1).len() == (l2 + r2).len());
        assert(l1 =~= (l1 + r1).subrange(0, l1.len() as int));
        assert(l2 =~= (l2 + r2).subrange(0, l2.len() as int));
        assert(r1 =~= (l1 + r1).subrange(l1.len() as int, (l1 + r1).len() as int));
        assert(r2 =~= (l2 + r2).subrange(l2.len() as int, (l2 + r2).len() as int));
    }
}

/// Climbing from two starts along two paths of one length, with a digest that
/// differs somewhere, ends in two digests or shows a collision.
proof fn lemma_climb_digest(
    c1: Commitment,
    c2: Commitment,
    path1: Seq<Commitment>,
    path2: Seq<Commitment>,
    position: nat,
)
    requires
        path1.len() == path2.len(),
        forall|h: int| 0 <= h < path1.len() ==> path1[h].digest.len() == path2[h].digest.len(),
        c1.digest != c2.digest || exists|h: int|
            0 <= h < path1.len() && path1[h].digest != path2[h].digest,
    ensures
        climb(c1, path1, position).digest != climb(c2, path2, position).digest
            || sha256_collides(),
    decreases path1.len(),
{
    if path1.len() > 0 {
        let (l1, r1, l2, r2) = if position % 2 == 0 {
            (c1, path1[0], c2, path2[0])
        } else {
            (path1[0], c1, path2[0], c2)
        };
        let above_a = combine(l1, r1);
        let above_b = combine(l2, r2);
        let tail1 = path1.drop_first();
        let tail2 = path2.drop_first();
        assert forall|h: int| 0 <= h < tail1.len() implies tail1[h].digest.len()
            == tail2[h].digest.len() by {
            assert(tail1[h] == path1[h + 1] && tail2[h] == path2[h + 1]);
        }
        if c1.digest != c2.digest || path1[0].digest != path2[0].digest {
            lemma_joined_differ(l1.digest, r1.digest, l2.digest, r2.digest);
            if above_a.digest == above_b.digest {
                assert(sha256(l1.digest + r1.digest) == sha256(l2.digest + r2.digest));
                assert(sha256_collides());
            } else {
                lemma_climb_digest(above_a, above_b, tail1, tail2, position / 2);
            }
        } else {
            let h = choose|h: int| 0 <= h < path1.len() && path1[h].digest != path2[h].digest;
            assert(tail1[h - 1] == path1[h] && tail2[h - 1] == path2[h]);
            lemma_climb_digest(above_a, above_b, tail1, tail2, position / 2);
        }
    }
}

/// Soundness against a changed digest: of two proofs for the same position
/// with paths of the same length, whose leaf digests or some sibling digests
/// differ, at most one leads to a given root, unless SHA-256 collides.
pub proof fn lemma_forged_digest_is_rejected(a: Allotment, b: Allotment, root: Commitment)
    requires
        a.position == b.position,
        a.path.len() == b.path.len(),
        forall|h: int| 0 <= h < a.path.len() ==> a.path[h].digest.len() == b.path[h].digest.len(),
        a.node.digest != b.node.digest || exists|h: int|
            0 <= h < a.path.len() && a.path[h].digest != b.path[h].digest,
        claimed_root(a) == root,
    ensures
        claimed_root(b) != root || sha256_collides(),
{
    lemma_climb_digest(a.node, b.node, a.path, b.path, a.position);
}

/// Bit `height` of `position`: 0 where the leaf's ancestor at that height is
/// a left child, 1 where it is a right child.
pub open spec fn bit(position: nat, height: nat) -> nat {
    ancestor(position, height) % 2
}

/// Halving a position first and taking ancestors afterwards is the same as
/// taking one ancestor more.
proof fn lemma_ancestor_shift(position: nat, height: nat)
    ensures
        ancestor(position / 2, height) == ancestor(position, height + 1),
    decreases height,
{
    assert(ancestor(position, height + 1) == ancestor(position, height) / 2);
    if height > 0 {
        lemma_ancestor_shift(position, (height - 1) as nat);
    }
}

/// A climb reads no more bits of the position than the path has entries.
proof fn lemma_climb_reads_low_bits(
    current: Commitment,
    path: Seq<Commitment>,
    first: nat,
    second: nat,
)
    requires
        forall|h: nat| h < path.len() ==> #[trigger] bit(first, h) == bit(second, h),
    ensures
        climb(current, path, first) == climb(current, path, second),
    decreases path.len(),
{
    if path.len() > 0 {
        assert(bit(first, 0) == bit(second, 0));
        let above = if first % 2 == 0 {
            combine(current, path[0])
        } else {
            combine(path[0], current)
        };
        let first_up = first / 2;
        let second_up = second / 2;
        assert forall|h: nat| h < path.drop_first().len() implies #[trigger] bit(first_up, h)
            == bit(second_up, h) by {
            lemma_ancestor_shift(first, h);
            lemma_ancestor_shift(second, h);
            assert(bit(first, h + 1) == bit(second, h + 1));
        }
        lemma_climb_reads_low_bits(above, path.drop_first(), first_up, second_up);
    }
}

/// A climb can be broken off at any height and taken up again from there.
proof fn lemma_climb_split(current: Commitment, path: Seq<Commitment>, position: nat, height: nat)
    requires
        height <= path.len(),
    ensures
        climb(current, path, position) == climb(
            climb(current, path.take(height as int), position),
            path.skip(height as int),
            ancestor(position, height),
        ),
    decreases height,
{
    if height == 0 {
        assert(path.skip(0) =~= path);
    } else {
        let above = if position % 2 == 0 {
            combine(current, path[0])
        } else {
            combine(path[0], current)
        };
        let below = (height - 1) as nat;
        lemma_climb_split(above, path.drop_first(), position / 2, below);
        lemma_ancestor_shift(position, below);
        assert(path.take(height as int).drop_first() =~= path.drop_first().take(below as int));
        assert(path.drop_first().skip(below as int) =~= path.skip(height as int));
    }
}

/// The commitment that a proof reaches at `height`: its leaf climbed along
/// the first `height` entries of its path.
pub open spec fn reached(a: Allotment, height: nat) -> Commitment {
    climb(a.node, a.path.take(height as int), a.position)
}

/// Soundness against a changed position: a proof that leads to a root no
/// longer does once one bit of its position below the path's length is
/// flipped, unless SHA-256 collides. The two commitments that are combined at
/// that height must differ in their digests, which are equally long: where
/// they are the same, their order cannot be told.
pub proof fn lemma_forged_position_is_rejected(
    a: Allotment,
    position: nat,
    height: nat,
    root: Commitment,
)
    requires
        height < a.path.len(),
        forall|h: nat|
            h < a.path.len() ==> (#[trigger] bit(position, h) == bit(a.position, h)) == (h
                != height),
        reached(a, height).digest != a.path[height as int].digest,
        reached(a, height).digest.len() == a.path[height as int].digest.len(),
        claimed_root(a) == root,
    ensures
        claimed_root(Allotment { position, ..a }) != root || sha256_collides(),
{
    let low = a.path.take(height as int);
    let tail = a.path.skip(height as int);
    let rest = tail.drop_first();
    let current = climb(a.node, low, a.position);
    let beside = a.path[height as int];
    assert forall|h: nat| h < low.len() implies #[trigger] bit(a.position, h) == bit(
        position,
        h,
    ) by {
        assert(bit(position, h) == bit(a.position, h));
    }
    lemma_climb_reads_low_bits(a.node, low, a.position, position);
    lemma_climb_split(a.node, a.path, a.position, height);
    lemma_climb_split(a.node, a.path, position, height);
    let here = ancestor(a.position, height);
    let there = ancestor(position, height);
    assert(bit(position, height) != bit(a.position, height));
    assert(tail[0] == beside);
    let (first, second) = if here % 2 == 0 {
        (combine(current, beside), combine(beside, current))
    } else {
        (combine(beside, current), combine(current, beside))
    };
    assert(claimed_root(a) == climb(first, rest, here / 2));
    assert(claimed_root(Allotment { position, ..a }) == climb(second, rest, there / 2));
    let here_up = here / 2;
    let there_up = there / 2;
    assert forall|h: nat| h < rest.len() implies #[trigger] bit(there_up, h) == bit(
        here_up,
        h,
    ) by {
        lemma_ancestor_shift(there, h);
        lemma_ancestor_shift(here, h);
        lemma_ancestor_sum(position, height, h + 1);
        lemma_ancestor_sum(a.position, height, h + 1);
        assert(bit(position, height + h + 1) == bit(a.position, height + h + 1));
    }
    lemma_climb_reads_low_bits(second, rest, there_up, here_up);
    lemma_joined_differ(current.digest, beside.digest, beside.digest, current.digest);
    if first.digest == second.digest {
        assert(sha256(current.digest + beside.digest) == sha256(beside.digest + current.digest));
        assert(sha256_collides());
    } else {
        lemma_climb_digest(first, second, rest, rest, here / 2);
    }
}

/// Taking ancestors in two steps is taking them in one.
proof fn lemma_ancestor_sum(position: nat, first: nat, second: nat)
    ensures
        ancestor(ancestor(position, first), second) == ancestor(position, first + second),
    decreases second,
{
    if second > 0 {
        lemma_ancestor_sum(position, first, (second - 1) as nat);
        assert(ancestor(position, first + second) == ancestor(
            position,
            (first + second - 1) as nat,
        ) / 2);
    }
}

/// Pairing up two rows of even length side by side pairs up each of them.
proof fn lemma_pair_up_joined(left: Seq<Commitment>, right: Seq<Commitment>)
    requires
        left.len() % 2 == 0,
        right.len() % 2 == 0,
    ensures
        pair_up(left + right) == pair_up(left) + pair_up(right),
{
    assert(pair_up(left + right) =~= pair_up(left) + pair_up(right));
}

/// Below the root, each row of a tree is the row of its left half followed by
/// the row of its right half.
proof fn lemma_level_of_halves(leaves: Seq<u64>, height: nat)
    requires
        is_power_of_two(leaves.len()),
        leaves.len() >= 2,
        height < log2(leaves.len()),
    ensures
        level(leaves, height) == level(leaves.take(leaves.len() as int / 2), height) + level(
            leaves.skip(leaves.len() as int / 2),
            height,
        ),
    decreases height,
{
    let half = leaves.len() as int / 2;
    let left = leaves.take(half);
    let right = leaves.skip(half);
    if height == 0 {
        assert(level(leaves, 0) =~= level(left, 0) + level(right, 0));
    } else {
        let below = (height - 1) as nat;
        lemma_level_of_halves(leaves, below);
        lemma_level_len(left, below);
        lemma_level_len(right, below);
        lemma_row_len(left.len(), below);
        lemma_row_len(right.len(), below);
        lemma_pair_up_joined(level(left, below), level(right, below));
    }
}

/// The root of a tree over two or more balances combines the roots of the
/// trees over the first and the second half of them.
pub proof fn lemma_root_of_halves(leaves: Seq<u64>)
    requires
        is_power_of_two(leaves.len()),
        leaves.len() >= 2,
    ensures
        merkle_root(leaves) == combine(
            merkle_root(leaves.take(leaves.len() as int / 2)),
            merkle_root(leaves.skip(leaves.len() as int / 2)),
        ),
{
    let half = leaves.len() as int / 2;
    let left = leaves.take(half);
    let right = leaves.skip(half);
    let below = (log2(leaves.len()) - 1) as nat;
    lemma_level_of_halves(leaves, below);
    lemma_level_len(left, below);
    lemma_level_len(right, below);
    lemma_row_len(left.len(), below);
    lemma_row_len(right.len(), below);
}

} // verus!
