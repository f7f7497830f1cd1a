//! The mathematical model of a Merkle sum tree: commitments as pairs of a
//! total and a digest, the levels of the tree over a list of balances, and the
//! path that proves one leaf.

use crate::hashing::{be_bytes, sha256};
use vstd::prelude::*;

verus! {

/// A commitment as a mathematical value: a total and the digest bound to it.
pub struct Commitment {
    pub amount: nat,
    pub digest: Seq<u8>,
}

/// A proof as a mathematical value: the leaf, its position, and the sibling
/// commitments from the leaf's own sibling up to the one below the root.
pub struct Allotment {
    pub position: nat,
    pub path: Seq<Commitment>,
    pub node: Commitment,
}

/// The commitment of a single balance: the balance and the digest of its
/// big-endian encoding.
pub open spec fn leaf_commitment(amount: u64) -> Commitment {
    Commitment { amount: amount as nat, digest: sha256(be_bytes(amount)) }
}

/// The commitment of a node above two children: the sum of their totals and
/// the digest of their digests, left first.
pub open spec fn combine(left: Commitment, right: Commitment) -> Commitment {
    Commitment {
        amount: left.amount + right.amount,
        digest: sha256(left.digest + right.digest),
    }
}

/// The total of a list of balances.
pub open spec fn sum(s: Seq<u64>) -> nat
    decreases s.len(),
{
    if s.len() == 0 {
        0
    } else {
        s[0] as nat + sum(s.drop_first())
    }
}

/// The sum of the totals of a list of commitments.
pub open spec fn total(row: Seq<Commitment>) -> nat
    decreases row.len(),
{
    if row.len() == 0 {
        0
    } else {
        row[0].amount + total(row.drop_first())
    }
}

/// `n` is one of 1, 2, 4, 8, ...
pub open spec fn is_power_of_two(n: nat) -> bool
    decreases n,
{
    n == 1 || (n >= 2 && n % 2 == 0 && is_power_of_two(n / 2))
}

/// The number of halvings that take `n` down to 1: the binary logarithm of a
/// power of two.
pub open spec fn log2(n: nat) -> nat
    decreases n,
{
    if n <= 1 {
        0
    } else {
        1 + log2(n / 2)
    }
}

/// The number of nodes in the row at `height` of a tree with `n` leaves.
pub open spec fn row_len(n: nat, height: nat) -> nat
    decreases height,
{
    if height == 0 {
        n
    } else {
        row_len(n, (height - 1) as nat) / 2
    }
}

/// The row above `row`: each node combines two neighbours of `row`.
pub open spec fn pair_up(row: Seq<Commitment>) -> Seq<Commitment> {
    Seq::new(row.len() / 2, |j: int| combine(row[2 * j], row[2 * j + 1]))
}

/// The row of the tree at `height` above the leaves; row 0 holds the leaf
/// commitments in input order.
pub open spec fn level(leaves: Seq<u64>, height: nat) -> Seq<Commitment>
    decreases height,
{
    if height == 0 {
        Seq::new(leaves.len(), |i: int| leaf_commitment(leaves[i]))
    } else {
        pair_up(level(leaves, (height - 1) as nat))
    }
}

/// The commitment in slot `index` of the flat storage of the tree over
/// `leaves`: the last `leaves.len()` slots hold the leaves in order, and slot
/// `i` before them combines slots `2i + 1` and `2i + 2`.
pub open spec fn slot(leaves: Seq<u64>, index: nat) -> Commitment
    decreases 2 * leaves.len() - index,
{
    if index + 1 >= leaves.len() {
        leaf_commitment(leaves[index + 1 - leaves.len()])
    } else {
        combine(slot(leaves, 2 * index + 1), slot(leaves, 2 * index + 2))
    }
}

/// The flat storage of the tree over `leaves`: `2N - 1` slots, the root
/// first.
pub open spec fn storage(leaves: Seq<u64>) -> Seq<Commitment> {
    Seq::new((2 * leaves.len() - 1) as nat, |i: int| slot(leaves, i as nat))
}

/// The slots of a storage of `size` slots below and including `index`, each
/// with its depth below the root taken as `depth`, in the order in which the
/// tree reads when it is drawn on its side: the right subtree, the node, the
/// left subtree.
pub open spec fn sideways_from(index: nat, depth: nat, size: nat) -> Seq<(nat, nat)>
    decreases
            if index < size {
                size - index
            } else {
                0
            },
{
    if index >= size {
        Seq::empty()
    } else {
        sideways_from(2 * index + 2, depth + 1, size) + seq![(index, depth)] + sideways_from(
            2 * index + 1,
            depth + 1,
            size,
        )
    }
}

/// The root commitment of the tree over `leaves`.
pub open spec fn merkle_root(leaves: Seq<u64>) -> Commitment {
    level(leaves, log2(leaves.len()))[0]
}

/// The index, within its row, of the ancestor of leaf `position` at `height`.
pub open spec fn ancestor(position: nat, height: nat) -> nat
    decreases height,
{
    if height == 0 {
        position
    } else {
        ancestor(position, (height - 1) as nat) / 2
    }
}

/// The other child of the parent of node `index` of a row.
pub open spec fn sibling_of(index: nat) -> nat {
    if index % 2 == 0 {
        index + 1
    } else {
        (index - 1) as nat
    }
}

/// The proof of the leaf at `position`: at each height the sibling of the
/// leaf's ancestor there.
pub open spec fn allotment_of(leaves: Seq<u64>, position: nat) -> Allotment {
    Allotment {
        position,
        path: Seq::new(
            log2(leaves.len()),
            |h: int| level(leaves, h as nat)[sibling_of(ancestor(position, h as nat)) as int],
        ),
        node: leaf_commitment(leaves[position as int]),
    }
}

/// The commitment reached from `current` by combining it with each entry of
/// `path` in turn. The lowest bit of `position` tells whether `current` is the
/// right child (1) or the left child (0); the next bit decides one row up.
pub open spec fn climb(current: Commitment, path: Seq<Commitment>, position: nat) -> Commitment
    decreases path.len(),
{
    if path.len() == 0 {
        current
    } else {
        let parent = if position % 2 == 0 {
            combine(current, path[0])
        } else {
            combine(path[0], current)
        };
        climb(parent, path.drop_first(), position / 2)
    }
}

/// The root that a proof claims: its leaf climbed along its path.
pub open spec fn claimed_root(a: Allotment) -> Commitment {
    climb(a.node, a.path, a.position)
}

/// A row of a tree over a power of two of leaves is itself a power of two
/// long, and each row up takes one from the logarithm.
pub proof fn lemma_row_len(n: nat, height: nat)
    requires
        is_power_of_two(n),
        height <= log2(n),
    ensures
        is_power_of_two(row_len(n, height)),
        log2(row_len(n, height)) + height == log2(n),
        1 <= row_len(n, height) <= n,
        height < log2(n) ==> row_len(n, height) % 2 == 0 && row_len(n, height) >= 2,
        height == log2(n) ==> row_len(n, height) == 1,
    decreases height,
{
    if height > 0 {
        lemma_row_len(n, (height - 1) as nat);
    }
    let r = row_len(n, height);
    if height < log2(n) {
        assert(log2(r) >= 1);
        assert(r >= 2);
        assert(is_power_of_two(r));
    } else {
        assert(log2(r) == 0);
        assert(r <= 1);
    }
}

/// The row of the model at `height` has `row_len` entries.
pub proof fn lemma_level_len(leaves: Seq<u64>, height: nat)
    ensures
        level(leaves, height).len() == row_len(leaves.len(), height),
    decreases height,
{
    if height > 0 {
        lemma_level_len(leaves, (height - 1) as nat);
    }
}

/// The ancestors of a leaf stay inside their rows.
pub proof fn lemma_ancestor_in_row(n: nat, position: nat, height: nat)
    requires
        is_power_of_two(n),
        height <= log2(n),
        position < n,
    ensures
        ancestor(position, height) < row_len(n, height),
        sibling_of(ancestor(position, height)) < row_len(n, height) || height == log2(n),
    decreases height,
{
    lemma_row_len(n, height);
    if height > 0 {
        lemma_ancestor_in_row(n, position, (height - 1) as nat);
        lemma_row_len(n, (height - 1) as nat);
    }
}

/// The rows of the tree lie one after the other in the flat storage, the
/// root's row first: the row at `height` starts at slot `row_len - 1`.
pub proof fn lemma_slot_is_level(leaves: Seq<u64>, height: nat, index: nat)
    requires
        is_power_of_two(leaves.len()),
        height <= log2(leaves.len()),
        index < row_len(leaves.len(), height),
    ensures
        slot(leaves, (row_len(leaves.len(), height) - 1 + index) as nat) == level(
            leaves,
            height,
        )[index as int],
    decreases height,
{
    let n = leaves.len();
    lemma_row_len(n, height);
    lemma_level_len(leaves, height);
    if height > 0 {
        let below = (height - 1) as nat;
        lemma_row_len(n, below);
        lemma_level_len(leaves, below);
        lemma_slot_is_level(leaves, below, 2 * index);
        lemma_slot_is_level(leaves, below, 2 * index + 1);
    }
}

/// Pairing up a row keeps its total.
pub proof fn lemma_pair_up_total(row: Seq<Commitment>)
    requires
        row.len() % 2 == 0,
    ensures
        total(pair_up(row)) == total(row),
    decreases row.len(),
{
    if row.len() > 0 {
        let rest = row.drop_first().drop_first();
        lemma_pair_up_total(rest);
        assert(pair_up(row).drop_first() =~= pair_up(rest));
        assert(total(row.drop_first()) == row[1].amount + total(rest));
    } else {
        assert(pair_up(row) =~= Seq::<Commitment>::empty());
    }
}

/// Every row of the tree carries the total of the balances.
pub proof fn lemma_level_total(leaves: Seq<u64>, height: nat)
    requires
        is_power_of_two(leaves.len()),
        height <= log2(leaves.len()),
    ensures
        total(level(leaves, height)) == sum(leaves),
    decreases height,
{
    if height > 0 {
        let below = (height - 1) as nat;
        lemma_level_total(leaves, below);
        lemma_level_len(leaves, below);
        lemma_row_len(leaves.len(), below);
        lemma_pair_up_total(level(leaves, below));
    } else {
        lemma_leaf_row_total(leaves);
    }
}

/// The leaf commitments carry the total of the balances.
pub proof fn lemma_leaf_row_total(leaves: Seq<u64>)
    ensures
        total(level(leaves, 0)) == sum(leaves),
    decreases leaves.len(),
{
    if leaves.len() > 0 {
        let rest = leaves.drop_first();
        assert(level(leaves, 0).drop_first() =~= level(rest, 0));
        lemma_leaf_row_total(rest);
    }
}

/// Sum conservation: the root of the tree over a power of two of balances
/// carries their total.
pub proof fn lemma_root_amount_is_sum(leaves: Seq<u64>)
    requires
        is_power_of_two(leaves.len()),
    ensures
        merkle_root(leaves).amount == sum(leaves),
{
    let top = log2(leaves.len());
    lemma_level_total(leaves, top);
    lemma_level_len(leaves, top);
    lemma_row_len(leaves.len(), top);
    let row = level(leaves, top);
    assert(total(row) == row[0].amount + total(row.drop_first()));
    assert(total(row.drop_first()) == 0);
}

/// Climbing adds up totals: the total at the top is the total at the bottom
/// plus every total on the path, whatever the position.
pub proof fn lemma_climb_amount(current: Commitment, path: Seq<Commitment>, position: nat)
    ensures
        climb(current, path, position).amount == current.amount + total(path),
    decreases path.len(),
{
    if path.len() > 0 {
        let parent = if position % 2 == 0 {
            combine(current, path[0])
        } else {
            combine(path[0], current)
        };
        lemma_climb_amount(parent, path.drop_first(), position / 2);
    }
}

/// A list of one balance adds up to that balance.
pub proof fn lemma_sum_single(s: Seq<u64>)
    requires
        s.len() == 1,
    ensures
        sum(s) == s[0],
{
    assert(sum(s) == s[0] as nat + sum(s.drop_first()));
    assert(sum(s.drop_first()) == 0);
}

} // verus!
