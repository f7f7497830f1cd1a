//! The Merkle sum tree: a complete binary tree of commitments kept in one
//! flat vector, node `i` above nodes `2i + 1` and `2i + 2`, the root at 0 and
//! the leaves in the last `N` slots in input order.

use crate::allotment::{AllotmentProof, ExclusiveAllotmentProof};
use crate::commitment::{views, BalanceCommitment, SumCommitment};
use crate::laws::lemma_issued_proof_verifies;
use crate::model::{
    allotment_of, ancestor, claimed_root, combine, is_power_of_two, leaf_commitment,
    lemma_ancestor_in_row, lemma_root_amount_is_sum, lemma_row_len, lemma_slot_is_level,
    lemma_sum_single, level, log2, merkle_root, row_len, sibling_of, sideways_from, slot, storage,
    sum, Commitment,
};
use vstd::prelude::*;

verus! {

/// The largest total of balances that a tree accepts.
pub const SUM_LIMIT: u64 = 1_000_000_000;

/// Why a tree could not be built or a proof could not be issued.
#[derive(Debug, Clone, Copy, PartialEq, Eq, Structural)]
pub enum MerkleError {
    /// The number of balances is not a power of two (zero included), or the
    /// tree over them would have more nodes than the machine can index.
    InvalidInputSize,
    /// The balances add up to more than `SUM_LIMIT`.
    SumExceedsLimit,
    /// The requested leaf does not exist.
    InvalidPosition,
}

impl MerkleError {
    /// A sentence that says what went wrong.
    pub fn message(&self) -> (r: &'static str)
        ensures
            r@ == match *self {
                MerkleError::InvalidInputSize => "Input size must be a power of 2"@,
                MerkleError::SumExceedsLimit => "Sum of input values exceeds 1,000,000,000"@,
                MerkleError::InvalidPosition => "Invalid position for proof"@,
            },
    {
        match self {
            MerkleError::InvalidInputSize => "Input size must be a power of 2",
            MerkleError::SumExceedsLimit => "Sum of input values exceeds 1,000,000,000",
            MerkleError::InvalidPosition => "Invalid position for proof",
        }
    }
}

/// What every Merkle tree of commitments offers.
pub trait MerkleTree<C: SumCommitment, P: ExclusiveAllotmentProof<C>>: Sized + View<
    V = Seq<u64>,
> {
    /// Builds the tree over `values`, which it then shows as its view. The
    /// number of balances must be a power of two, and small enough for the
    /// tree's `2N - 1` nodes to be indexed; their total must not exceed
    /// `SUM_LIMIT`. The size is judged before the total.
    fn new(values: Vec<u64>) -> (r: Result<Self, MerkleError>)
        ensures
            match r {
                Ok(tree) => {
                    &&& is_power_of_two(values@.len())
                    &&& 2 * values@.len() - 1 <= usize::MAX
                    &&& sum(values@) <= SUM_LIMIT
                    &&& tree@ == values@
                },
                Err(MerkleError::InvalidInputSize) => !is_power_of_two(values@.len()) || 2
                    * values@.len() - 1 > usize::MAX,
                Err(MerkleError::SumExceedsLimit) => {
                    &&& is_power_of_two(values@.len())
                    &&& 2 * values@.len() - 1 <= usize::MAX
                    &&& sum(values@) > SUM_LIMIT
                },
                Err(MerkleError::InvalidPosition) => false,
            },
    ;

    /// The root commitment: it binds every balance and carries their total.
    fn commit(&self) -> (r: C)
        ensures
            r@ == merkle_root(self@),
            r@.amount == sum(self@),
    ;

    /// The proof for the leaf at `position`, if there is such a leaf: the
    /// leaf's commitment and, for each height below the root, the sibling of
    /// the leaf's ancestor there. It leads to the root of this tree.
    fn prove(&self, position: usize) -> (r: Result<P, MerkleError>)
        ensures
            match r {
                Ok(p) => {
                    &&& position < self@.len()
                    &&& p@ == allotment_of(self@, position as nat)
                    &&& p@.path.len() == log2(self@.len())
                    &&& claimed_root(p@) == merkle_root(self@)
                },
                Err(e) => e == MerkleError::InvalidPosition && position >= self@.len(),
            },
    ;
}

/// A Merkle sum tree over a list of balances.
pub struct MerkleSumTree {
    data: Vec<BalanceCommitment>,
}

/// Node `i` lies in the subtree below (and including) node `root`.
spec fn in_subtree(i: int, root: int) -> bool
    decreases i,
{
    if i <= root || i <= 0 {
        i == root
    } else {
        in_subtree((i - 1) / 2, root)
    }
}

/// Slot `i` of `data` holds what the tree over the leaf commitments `input`
/// has there: the leaf itself in the last row, the combination of the two
/// children elsewhere.
spec fn node_ok(data: Seq<BalanceCommitment>, input: Seq<BalanceCommitment>, i: int) -> bool {
    if i >= input.len() - 1 {
        data[i] == input[i - (input.len() - 1)]
    } else {
        data[i]@ == combine(data[2 * i + 1]@, data[2 * i + 2]@)
    }
}

/// The totals held by a list of commitments.
spec fn amounts(input: Seq<BalanceCommitment>) -> Seq<u64> {
    Seq::new(input.len(), |i: int| input[i]@.amount as u64)
}

/// A subtree lies behind its root in storage.
proof fn lemma_in_subtree_ge(i: int, root: int)
    requires
        in_subtree(i, root),
        0 <= root,
    ensures
        i >= root,
    decreases i,
{
    if !(i <= root || i <= 0) {
    }
}

/// A subtree is its root and the subtrees of the two children, which share
/// no slot.
proof fn lemma_in_subtree_split(i: int, root: int)
    requires
        0 <= root,
        0 <= i,
    ensures
        in_subtree(i, root) <==> (i == root || in_subtree(i, 2 * root + 1) || in_subtree(
            i,
            2 * root + 2,
        )),
        !(in_subtree(i, 2 * root + 1) && in_subtree(i, 2 * root + 2)),
    decreases i,
{
    if i > 2 * root + 2 {
        lemma_in_subtree_split((i - 1) / 2, root);
    } else if i == 2 * root + 2 {
        assert(in_subtree(root, root));
        assert(!in_subtree(root, 2 * root + 1));
    } else if i == 2 * root + 1 {
        assert(in_subtree(root, root));
    } else if i > root {
        assert(!in_subtree((i - 1) / 2, root));
    }
}

/// Every slot lies in the subtree of slot 0.
proof fn lemma_in_subtree_of_root(i: int)
    requires
        0 <= i,
    ensures
        in_subtree(i, 0),
    decreases i,
{
    if i > 0 {
        lemma_in_subtree_of_root((i - 1) / 2);
    }
}

/// The total of a range is the total of its two parts.
proof fn lemma_sum_split(s: Seq<u64>, lo: int, mid: int, hi: int)
    requires
        0 <= lo <= mid <= hi <= s.len(),
    ensures
        sum(s.subrange(lo, hi)) == sum(s.subrange(lo, mid)) + sum(s.subrange(mid, hi)),
    decreases mid - lo,
{
    if lo < mid {
        lemma_sum_split(s, lo + 1, mid, hi);
        assert(s.subrange(lo, hi).drop_first() =~= s.subrange(lo + 1, hi));
        assert(s.subrange(lo, mid).drop_first() =~= s.subrange(lo + 1, mid));
    } else {
        assert(s.subrange(lo, mid) =~= Seq::<u64>::empty());
    }
}

/// A machine word is a power of two exactly if it is positive and shares no
/// bit with its predecessor.
proof fn lemma_power_of_two_bits(n: usize)
    requires
        n > 0,
    ensures
        is_power_of_two(n as nat) <==> n & ((n - 1) as usize) == 0,
    decreases n,
{
    if n >= 2 {
        let m: usize = n / 2;
        lemma_power_of_two_bits(m);
        assert((n & ((n - 1) as usize) == 0) <==> (n % 2 == 0 && (n / 2) & (((n / 2) - 1) as usize)
            == 0)) by (bit_vector)
            requires
                n >= 2,
        ;
    } else {
        assert(1usize & 0usize == 0) by (bit_vector);
    }
}

/// A prefix never adds up to more than the whole list.
proof fn lemma_sum_prefix(s: Seq<u64>, i: int)
    requires
        0 <= i <= s.len(),
    ensures
        sum(s.take(i)) <= sum(s),
{
    lemma_sum_split(s, 0, i, s.len() as int);
    assert(s.subrange(0, s.len() as int) =~= s);
    assert(s.subrange(0, i) =~= s.take(i));
}

impl View for MerkleSumTree {
    type V = Seq<u64>;

    /// The balances at the leaves, in input order.
    closed spec fn view(&self) -> Seq<u64> {
        Seq::new(
            ((self.data.len() + 1) / 2) as nat,
            |i: int| self.data[(self.data.len() + 1) / 2 - 1 + i]@.amount as u64,
        )
    }
}

impl MerkleSumTree {
    /// The storage invariant: `2N - 1` slots for a power of two `N` of
    /// leaves whose total is within `SUM_LIMIT`; each of the last `N` slots is
    /// the commitment of its balance; every other slot combines its two
    /// children.
    #[verifier::type_invariant]
    pub closed spec fn wf(&self) -> bool {
        let n = (self.data.len() + 1) / 2;
        &&& self.data.len() == 2 * n - 1
        &&& is_power_of_two(n as nat)
        &&& sum(self@) <= SUM_LIMIT
        &&& forall|i: int|
            n - 1 <= i < 2 * n - 1 ==> (#[trigger] self.data[i])@ == leaf_commitment(
                self.data[i]@.amount as u64,
            )
        &&& forall|i: int|
            0 <= i < n - 1 ==> (#[trigger] self.data[i])@ == combine(
                self.data[2 * i + 1]@,
                self.data[2 * i + 2]@,
            )
    }

    /// The commitments in storage order, the root first.
    pub closed spec fn nodes(&self) -> Seq<Commitment> {
        views(self.data@)
    }

    /// Slot `i` of a tree holds what the model has there.
    proof fn lemma_slot(self, i: int)
        requires
            self.wf(),
            0 <= i < self.data.len(),
        ensures
            self.data[i]@ == slot(self@, i as nat),
        decreases self.data.len() - i,
    {
        let n = (self.data.len() + 1) / 2;
        if i < n - 1 {
            self.lemma_slot(2 * i + 1);
            self.lemma_slot(2 * i + 2);
        } else {
            assert(self.data[i]@ == leaf_commitment(self.data[i]@.amount as u64));
            assert(self@[i - (n - 1)] == self.data[i]@.amount as u64);
        }
    }

    /// Every tree is over a power of two of balances whose total is within
    /// `SUM_LIMIT`, and stores exactly what the model lays out for them.
    pub proof fn lemma_storage(self)
        requires
            self.wf(),
        ensures
            self.nodes() == storage(self@),
            is_power_of_two(self@.len()),
            sum(self@) <= SUM_LIMIT,
    {
        assert forall|i: int| 0 <= i < self.data.len() implies self.nodes()[i] == slot(
            self@,
            i as nat,
        ) by {
            self.lemma_slot(i);
        }
        assert(self.nodes() =~= storage(self@));
    }
}

impl MerkleSumTree {
    /// Fills the subtree below `node`, which covers the leaves `start..=end`
    /// of `input`: the leaves are copied into the last row, and every node
    /// above them combines its two children. Slots outside the subtree keep
    /// what they held.
    fn init(
        data: &mut Vec<BalanceCommitment>,
        node: usize,
        start: usize,
        end: usize,
        input: &Vec<BalanceCommitment>,
    )
        requires
            old(data).len() == 2 * input.len() - 1,
            start <= end < input.len(),
            is_power_of_two((end - start + 1) as nat),
            (node + 1) * (end - start + 1) == input.len() + start,
            sum(amounts(input@).subrange(start as int, end + 1)) <= u64::MAX,
        ensures
            final(data).len() == old(data).len(),
            node < final(data).len(),
            forall|i: int|
                0 <= i < final(data).len() && !in_subtree(i, node as int) ==> final(data)[i] == old(
                    data,
                )[i],
            forall|i: int|
                0 <= i < final(data).len() && in_subtree(i, node as int) ==> node_ok(
                    final(data)@,
                    input@,
                    i,
                ),
            final(data)[node as int]@.amount == sum(
                amounts(input@).subrange(start as int, end + 1),
            ),
        decreases end - start,
    {
        let ghost n = input.len() as int;
        let ghost width = (end - start + 1) as int;
        let ghost totals = amounts(input@);
        if start == end {
            assert((node + 1) * width == node + 1) by (nonlinear_arith)
                requires
                    width == 1,
            ;
            data.set(node, input[start].clone());
            proof {
                lemma_sum_single(totals.subrange(start as int, end + 1));
                input[start as int].lemma_view_bounds();
                assert forall|i: int|
                    0 <= i < data.len() && in_subtree(i, node as int) implies node_ok(
                    data@,
                    input@,
                    i,
                ) by {
                    lemma_in_subtree_split(i, node as int);
                    if in_subtree(i, 2 * node + 1) {
                        lemma_in_subtree_ge(i, 2 * node + 1);
                    }
                    if in_subtree(i, 2 * node + 2) {
                        lemma_in_subtree_ge(i, 2 * node + 2);
                    }
                }
            }
        } else {
            let ghost half = width / 2;
            proof {
                assert(width >= 2 && width % 2 == 0);
                assert(2 * (node + 2) <= (node + 2) * width) by (nonlinear_arith)
                    requires
                        width >= 2,
                        node >= 0,
                ;
                assert((node + 2) * width == (node + 1) * width + width) by (nonlinear_arith);
                assert((2 * node + 2) * half == (node + 1) * width) by (nonlinear_arith)
                    requires
                        width == 2 * half,
                ;
                assert((2 * node + 3) * half == (node + 1) * width + half) by (nonlinear_arith)
                    requires
                        width == 2 * half,
                ;
                lemma_sum_split(totals, start as int, start + half, end + 1);
            }
            let mid = (start + end) / 2;
            let left = node * 2 + 1;
            let right = node * 2 + 2;
            Self::init(data, left, start, mid, input);
            let ghost after_left = data@;
            Self::init(data, right, mid + 1, end, input);
            let ghost after_right = data@;
            proof {
                lemma_in_subtree_split(left as int, node as int);
                lemma_in_subtree_split(right as int, node as int);
                assert(in_subtree(left as int, left as int));
                assert(in_subtree(right as int, right as int));
            }
            let above = BalanceCommitment::parent(&data[left], &data[right]).unwrap();
            data.set(node, above);
            proof {
                assert forall|i: int|
                    0 <= i < data.len() && !in_subtree(i, node as int) implies data[i] == old(
                    data,
                )[i] by {
                    lemma_in_subtree_split(i, node as int);
                }
                assert forall|i: int|
                    0 <= i < data.len() && in_subtree(i, node as int) implies node_ok(
                    data@,
                    input@,
                    i,
                ) by {
                    lemma_in_subtree_split(i, node as int);
                    if i != node {
                        let child = if in_subtree(i, left as int) {
                            left as int
                        } else {
                            right as int
                        };
                        lemma_in_subtree_ge(i, child);
                        if i < n - 1 {
                            assert(in_subtree(2 * i + 1, child));
                            assert(in_subtree(2 * i + 2, child));
                            lemma_in_subtree_split(2 * i + 1, node as int);
                            lemma_in_subtree_split(2 * i + 2, node as int);
                        }
                        assert(node_ok(after_left, input@, i) || node_ok(after_right, input@, i));
                    }
                }
            }
        }
    }

    /// A vector in which every slot holds what the tree over `leaves` has
    /// there is a well-formed tree over `input`.
    proof fn lemma_filled_is_wf(
        data: Vec<BalanceCommitment>,
        leaves: Seq<BalanceCommitment>,
        input: Seq<u64>,
    )
        requires
            leaves.len() == input.len(),
            data.len() == 2 * input.len() - 1,
            is_power_of_two(input.len()),
            sum(input) <= SUM_LIMIT,
            forall|k: int|
                0 <= k < input.len() ==> (#[trigger] leaves[k])@ == leaf_commitment(input[k]),
            forall|i: int| 0 <= i < data.len() ==> in_subtree(i, 0) ==> node_ok(data@, leaves, i),
        ensures
            (MerkleSumTree { data }).wf(),
            (MerkleSumTree { data })@ == input,
    {
        let tree = MerkleSumTree { data };
        let n = input.len() as int;
        assert forall|i: int| 0 <= i < data.len() implies node_ok(data@, leaves, i) by {
            lemma_in_subtree_of_root(i);
        }
        assert(tree@ =~= input) by {
            assert forall|i: int| 0 <= i < n implies tree@[i] == input[i] by {
                assert(node_ok(data@, leaves, n - 1 + i));
            }
        }
        assert forall|i: int| n - 1 <= i < 2 * n - 1 implies (#[trigger] data[i])@
            == leaf_commitment(data[i]@.amount as u64) by {
            assert(node_ok(data@, leaves, i));
        }
        assert forall|i: int| 0 <= i < n - 1 implies (#[trigger] data[i])@ == combine(
            data[2 * i + 1]@,
            data[2 * i + 2]@,
        ) by {
            assert(node_ok(data@, leaves, i));
        }
    }

    /// Whether the balances add up to no more than `SUM_LIMIT`. The running
    /// total never leaves the limit, so it cannot overflow.
    fn total_within_limit(input: &Vec<u64>) -> (ok: bool)
        ensures
            ok == (sum(input@) <= SUM_LIMIT),
    {
        let n = input.len();
        let mut total: u64 = 0;
        let mut i: usize = 0;
        while i < n
            invariant
                n == input.len(),
                i <= n,
                total == sum(input@.take(i as int)),
                total <= SUM_LIMIT,
            decreases n - i,
        {
            let value = input[i];
            proof {
                lemma_sum_split(input@, 0, i as int, i + 1);
                assert(input@.subrange(0, i as int) =~= input@.take(i as int));
                assert(input@.subrange(0, i + 1) =~= input@.take(i + 1));
                lemma_sum_single(input@.subrange(i as int, i + 1));
                lemma_sum_prefix(input@, i + 1);
            }
            if value > SUM_LIMIT - total {
                return false;
            }
            total = total + value;
            i += 1;
        }
        assert(input@.take(n as int) =~= input@);
        true
    }

    /// The commitment of every balance, in input order.
    fn leaf_commitments(input: &Vec<u64>) -> (leaves: Vec<BalanceCommitment>)
        ensures
            leaves.len() == input.len(),
            forall|k: int|
                0 <= k < input.len() ==> (#[trigger] leaves[k])@ == leaf_commitment(input[k]),
    {
        let n = input.len();
        let mut leaves: Vec<BalanceCommitment> = Vec::new();
        let mut j: usize = 0;
        while j < n
            invariant
                n == input.len(),
                j <= n,
                leaves.len() == j,
                forall|k: int| 0 <= k < j ==> (#[trigger] leaves[k])@ == leaf_commitment(input[k]),
            decreases n - j,
        {
            leaves.push(BalanceCommitment::leaf(input[j]));
            j += 1;
        }
        leaves
    }
}

impl MerkleTree<BalanceCommitment, AllotmentProof> for MerkleSumTree {
    /// Builds the tree over `input`. The size is checked first, then the
    /// total, and only then is anything hashed.
    fn new(input: Vec<u64>) -> (r: Result<Self, MerkleError>)
        ensures
            r matches Ok(tree) ==> tree.wf(),
    {
        let n = input.len();
        if n == 0 {
            return Err(MerkleError::InvalidInputSize);
        }
        proof {
            lemma_power_of_two_bits(n);
        }
        if n & (n - 1) != 0 {
            return Err(MerkleError::InvalidInputSize);
        }
        if n - 1 > (usize::MAX - 1) / 2 {
            return Err(MerkleError::InvalidInputSize);
        }
        if !Self::total_within_limit(&input) {
            return Err(MerkleError::SumExceedsLimit);
        }
        let balance_commitments = Self::leaf_commitments(&input);
        assert(amounts(balance_commitments@) =~= input@);
        assert(input@.subrange(0, n as int) =~= input@);

        let blank = BalanceCommitment::new(0, [0; 32]);
        let mut data: Vec<BalanceCommitment> = vec![blank; (n - 1) * 2 + 1];
        assert((0 + 1) * (n - 1 - 0 + 1) == n + 0) by (nonlinear_arith);
        Self::init(&mut data, 0, 0, n - 1, &balance_commitments);
        proof {
            Self::lemma_filled_is_wf(data, balance_commitments@, input@);
        }
        let tree = MerkleSumTree { data };
        Ok(tree)
    }

    fn commit(&self) -> (r: BalanceCommitment)
        ensures
            r@ == self.nodes()[0],
    {
        proof {
            use_type_invariant(self);
            let top = log2(self@.len());
            lemma_row_len(self@.len(), top);
            self.lemma_slot(0);
            lemma_slot_is_level(self@, top, 0);
            lemma_root_amount_is_sum(self@);
        }
        self.data[0].clone()
    }

    fn prove(&self, position: usize) -> (r: Result<AllotmentProof, MerkleError>) {
        proof {
            use_type_invariant(self);
        }
        let len = self.data.len() / 2 + 1;
        if position >= len {
            return Err(MerkleError::InvalidPosition);
        }
        let ghost n = len as nat;
        let ghost top = log2(n);
        let mut proof_path: Vec<BalanceCommitment> = Vec::new();
        let mut current_pos = position + len - 1;
        let current_node = self.data[position + len - 1].clone();
        let ghost height: nat = 0;
        proof {
            lemma_row_len(n, 0);
        }
        while current_pos > 0
            invariant
                self.wf(),
                n == self@.len(),
                n == len,
                top == log2(n),
                position < n,
                height <= top,
                current_pos == row_len(n, height) - 1 + ancestor(position as nat, height),
                proof_path.len() == height,
                forall|h: int|
                    0 <= h < height ==> (#[trigger] proof_path[h])@ == allotment_of(
                        self@,
                        position as nat,
                    ).path[h],
            decreases current_pos,
        {
            proof {
                lemma_row_len(n, height);
                lemma_ancestor_in_row(n, position as nat, height);
                lemma_row_len(n, height + 1);
                let beside = sibling_of(ancestor(position as nat, height));
                self.lemma_slot(row_len(n, height) - 1 + beside);
                lemma_slot_is_level(self@, height, beside);
            }
            let sibling_pos = if current_pos % 2 == 0 {
                current_pos - 1
            } else {
                current_pos + 1
            };
            let parent_pos = (current_pos - 1) / 2;
            let sibling_commitment = self.data[sibling_pos].clone();
            proof_path.push(sibling_commitment);
            current_pos = parent_pos;
            proof {
                height = height + 1;
            }
        }
        proof {
            lemma_row_len(n, height);
            lemma_ancestor_in_row(n, position as nat, height);
            assert(views(proof_path@) =~= allotment_of(self@, position as nat).path);
            lemma_issued_proof_verifies(self@, position as nat);
        }
        Ok(AllotmentProof::new(position, proof_path, current_node))
    }
}

/// A list of slot and depth pairs as mathematical values.
pub open spec fn as_pairs(s: Seq<(usize, usize)>) -> Seq<(nat, nat)> {
    Seq::new(s.len(), |k: int| (s[k].0 as nat, s[k].1 as nat))
}

impl MerkleSumTree {
    /// The number of commitments in storage: `2N - 1` for `N` leaves.
    pub fn size(&self) -> (r: usize)
        ensures
            r == 2 * self@.len() - 1,
            r == self.nodes().len(),
    {
        proof {
            use_type_invariant(self);
        }
        self.data.len()
    }

    /// The commitment in slot `index` of the storage, the root being slot 0.
    pub fn node(&self, index: usize) -> (r: Option<BalanceCommitment>)
        ensures
            match r {
                Some(c) => index < 2 * self@.len() - 1 && c@ == slot(self@, index as nat),
                None => index >= 2 * self@.len() - 1,
            },
    {
        proof {
            use_type_invariant(self);
        }
        if index < self.data.len() {
            proof {
                self.lemma_slot(index as int);
            }
            Some(self.data[index].clone())
        } else {
            None
        }
    }

    /// Appends to `out` the slots below and including `index`, the right
    /// subtree first, then the node with its depth, then the left subtree.
    fn sideways_into(size: usize, index: usize, depth: usize, out: &mut Vec<(usize, usize)>)
        requires
            index < size,
            size % 2 == 1,
            depth <= index,
        ensures
            as_pairs(final(out)@) == as_pairs(old(out)@) + sideways_from(
                index as nat,
                depth as nat,
                size as nat,
            ),
        decreases size - index,
    {
        let ghost before = as_pairs(out@);
        let ghost right = sideways_from((2 * index + 2) as nat, (depth + 1) as nat, size as nat);
        let ghost left = sideways_from((2 * index + 1) as nat, (depth + 1) as nat, size as nat);
        if index < size / 2 {
            Self::sideways_into(size, index * 2 + 2, depth + 1, out);
        }
        out.push((index, depth));
        assert(as_pairs(out@) =~= before + right + seq![(index as nat, depth as nat)]);
        if index < size / 2 {
            Self::sideways_into(size, index * 2 + 1, depth + 1, out);
        }
        assert(as_pairs(out@) =~= before + (right + seq![(index as nat, depth as nat)] + left));
    }

    /// Every slot with its depth below the root, in the order in which the
    /// tree reads when it is drawn on its side with the root at the left.
    pub fn sideways(&self) -> (r: Vec<(usize, usize)>)
        ensures
            as_pairs(r@) == sideways_from(0, 0, (2 * self@.len() - 1) as nat),
    {
        proof {
            use_type_invariant(self);
        }
        let mut out: Vec<(usize, usize)> = Vec::new();
        Self::sideways_into(self.data.len(), 0, 0, &mut out);
        assert(as_pairs(out@) =~= sideways_from(0, 0, self.data.len() as nat));
        out
    }
}

} // verus!
