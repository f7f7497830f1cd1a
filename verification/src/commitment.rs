//! Commitments: a total together with the digest that binds it.

use crate::hashing::{hash_bytes, int_to_u8_slice, merge_u8_arrays};
use crate::model::{combine, leaf_commitment, Commitment};
use vstd::prelude::*;

verus! {

/// What every commitment offers: the total it stands for and its digest.
pub trait SumCommitment: View<V = Commitment> {
    /// The committed total.
    fn amount(&self) -> (r: u64)
        ensures
            r as nat == self@.amount,
    ;

    /// The 32-byte digest bound to the total.
    fn digest(&self) -> (r: [u8; 32])
        ensures
            r@ == self@.digest,
    ;
}

/// A node of the Merkle sum tree: a balance, or the total of a subtree, and
/// its digest.
pub struct BalanceCommitment {
    amount: u64,
    hash: [u8; 32],
}

/// The mathematical values of a list of commitments, in order.
pub open spec fn views(s: Seq<BalanceCommitment>) -> Seq<Commitment> {
    Seq::new(s.len(), |i: int| s[i]@)
}

impl View for BalanceCommitment {
    type V = Commitment;

    closed spec fn view(&self) -> Commitment {
        Commitment { amount: self.amount as nat, digest: self.hash@ }
    }
}

impl BalanceCommitment {
    /// Pairs a total with a digest.
    pub fn new(amount: u64, hash: [u8; 32]) -> (r: Self)
        ensures
            r@ == (Commitment { amount: amount as nat, digest: hash@ }),
    {
        BalanceCommitment { amount, hash }
    }

    /// The commitment of a single balance: the balance itself with the
    /// digest of its eight big-endian bytes.
    pub fn leaf(amount: u64) -> (r: Self)
        ensures
            r@ == leaf_commitment(amount),
    {
        let hash_result = hash_bytes(&int_to_u8_slice(amount));
        BalanceCommitment::new(amount, hash_result)
    }

    /// The commitment of the node above `left` and `right`: the sum of their
    /// totals with the digest of their two digests, left first. There is
    /// none if the sum does not fit in 64 bits.
    pub fn parent(left: &BalanceCommitment, right: &BalanceCommitment) -> (r: Option<Self>)
        ensures
            match r {
                Some(c) => c@ == combine(left@, right@),
                None => left@.amount + right@.amount > u64::MAX,
            },
    {
        match left.amount.checked_add(right.amount) {
            Some(amount) => {
                let concatenated_hash = merge_u8_arrays(left.hash, right.hash);
                Some(BalanceCommitment::new(amount, hash_bytes(&concatenated_hash)))
            },
            None => None,
        }
    }

    /// The total fits in 64 bits and the digest has 32 bytes.
    pub proof fn lemma_view_bounds(self)
        ensures
            self@.amount <= u64::MAX,
            self@.digest.len() == 32,
    {
    }

    /// Two commitments with the same total and the same digest are the same
    /// value.
    pub proof fn lemma_view_injective(self, other: Self)
        requires
            self@ == other@,
        ensures
            self == other,
    {
        assert(self.hash@ =~= other.hash@);
        assert(self.hash == other.hash);
    }

    /// Compares two commitments: the totals first, then the digests byte by
    /// byte.
    pub fn same_as(&self, other: &BalanceCommitment) -> (r: bool)
        ensures
            r == (self@ == other@),
            r == (*self == *other),
    {
        proof {
            if self@ == other@ {
                self.lemma_view_injective(*other);
            }
        }
        if self.amount != other.amount {
            return false;
        }
        let mut i: usize = 0;
        while i < 32
            invariant
                i <= 32,
                self.amount == other.amount,
                forall|j: int| 0 <= j < i ==> self.hash@[j] == other.hash@[j],
            decreases 32 - i,
        {
            if self.hash[i] != other.hash[i] {
                return false;
            }
            i += 1;
        }
        assert(self.hash@ =~= other.hash@);
        true
    }
}

impl SumCommitment for BalanceCommitment {
    fn amount(&self) -> (r: u64) {
        self.amount
    }

    fn digest(&self) -> (r: [u8; 32]) {
        self.hash
    }
}

impl Clone for BalanceCommitment {
    fn clone(&self) -> (r: Self)
        ensures
            r == *self,
    {
        BalanceCommitment { amount: self.amount, hash: self.hash }
    }
}

} // verus!
