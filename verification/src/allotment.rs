//! Allotment proofs: a leaf, its position, and the siblings on the way to
//! the root. A proof is checked against a root commitment alone; the tree
//! that issued it is not needed.

use crate::commitment::{views, BalanceCommitment, SumCommitment};
use crate::model::{claimed_root, climb, combine, lemma_climb_amount, Allotment};
use vstd::prelude::*;

verus! {

/// What every proof of an allotment offers.
pub trait ExclusiveAllotmentProof<C: SumCommitment>: View<V = Allotment> {
    /// The index of the leaf that the proof is about.
    fn position(&self) -> (r: usize)
        ensures
            r as nat == self@.position,
    ;

    /// The sibling commitment at `height` above the leaf, if the path reaches
    /// that far.
    fn sibling(&self, height: u8) -> (r: Option<C>)
        ensures
            match r {
                Some(c) => height < self@.path.len() && c@ == self@.path[height as int],
                None => height >= self@.path.len(),
            },
    ;

    /// Whether the proof leads to `root_commitment`: whether the leaf,
    /// combined with each sibling in turn on the side that the position's
    /// bits give, ends in exactly that total and that digest.
    fn verify(&self, root_commitment: &C) -> (r: bool)
        ensures
            r == (claimed_root(self@) == root_commitment@),
    ;
}

/// The proof that one leaf is part of a committed total.
pub struct AllotmentProof {
    position: usize,
    proof_path: Vec<BalanceCommitment>,
    node: BalanceCommitment,
}

impl View for AllotmentProof {
    type V = Allotment;

    closed spec fn view(&self) -> Allotment {
        Allotment {
            position: self.position as nat,
            path: views(self.proof_path@),
            node: self.node@,
        }
    }
}

impl AllotmentProof {
    /// Puts a proof together from its parts. Nothing is checked here: a proof
    /// is judged by `verify`.
    pub fn new(position: usize, proof_path: Vec<BalanceCommitment>, node: BalanceCommitment) -> (r:
        Self)
        ensures
            r@ == (Allotment {
                position: position as nat,
                path: views(proof_path@),
                node: node@,
            }),
    {
        AllotmentProof { position, proof_path, node }
    }

    /// The commitment of the leaf that the proof is about.
    pub fn node(&self) -> (r: BalanceCommitment)
        ensures
            r@ == self@.node,
    {
        self.node.clone()
    }

    /// The number of siblings on the path: the height of the tree that the
    /// proof was issued for.
    pub fn path_len(&self) -> (r: usize)
        ensures
            r == self@.path.len(),
    {
        self.proof_path.len()
    }
}

impl ExclusiveAllotmentProof<BalanceCommitment> for AllotmentProof {
    fn position(&self) -> (r: usize) {
        self.position
    }

    fn sibling(&self, height: u8) -> (r: Option<BalanceCommitment>) {
        if (height as usize) < self.proof_path.len() {
            Some(self.proof_path[height as usize].clone())
        } else {
            None
        }
    }

    /// Recomputes the root from the leaf and the path and compares it with
    /// `root_commitment`. Every height below the path's length has a sibling,
    /// so the walk cannot miss one; a total that no longer fits in 64 bits
    /// cannot equal the root's and is reported as a failed verification.
    fn verify(&self, root_commitment: &BalanceCommitment) -> (r: bool) {
        let mut current = self.node.clone();
        let mut rest: usize = self.position;
        let mut height: usize = 0;
        assert(self@.path.skip(0) =~= self@.path);
        while height < self.proof_path.len()
            invariant
                height <= self.proof_path.len(),
                climb(current@, self@.path.skip(height as int), rest as nat) == claimed_root(
                    self@,
                ),
            decreases self.proof_path.len() - height,
        {
            let sibling = self.proof_path[height].clone();
            let ghost tail = self@.path.skip(height as int);
            assert(tail[0] == sibling@);
            assert(tail.drop_first() =~= self@.path.skip(height + 1));
            let (left, right) = if rest % 2 == 0 {
                (current, sibling)
            } else {
                (sibling, current)
            };
            current = match BalanceCommitment::parent(&left, &right) {
                Some(above) => above,
                None => {
                    proof {
                        lemma_climb_amount(
                            combine(left@, right@),
                            tail.drop_first(),
                            (rest / 2) as nat,
                        );
                        root_commitment.lemma_view_bounds();
                    }
                    return false;
                },
            };
            rest = rest / 2;
            height += 1;
        }
        current.same_as(root_commitment)
    }
}

} // verus!
