//! Merkle roots, wide sums and the clock.
use vstd::prelude::*;
use crate::codec::{push_u64, u64_be};
use crate::types::transaction::{Transaction, TransactionView};

verus! {

/// `chrono::Utc::now` and `DateTime::timestamp`: the seconds since the Unix
/// epoch on the machine's clock. Nothing is claimed of the result. The
/// outside function gives up on a clock that stands before 1970.
#[verifier::external_body]
pub(crate) fn current_time() -> (now: i64) {
    chrono::Utc::now().timestamp()
}

/// The mathematical values of some transactions, in order.
pub open spec fn transaction_views(txs: Seq<Transaction>) -> Seq<TransactionView> {
    Seq::new(txs.len(), |i: int| txs[i]@)
}

/// 2^128.
pub open spec fn tally_base() -> nat {
    0x1_0000_0000_0000_0000_0000_0000_0000_0000nat
}

/// A sum of many values that may pass 128 bits: `high * 2^128 + low`.
#[derive(Clone, Copy, Debug)]
pub struct Tally {
    pub high: u64,
    pub low: u128,
}

impl View for Tally {
    type V = nat;

    open spec fn view(&self) -> nat {
        self.high as nat * tally_base() + self.low as nat
    }
}

impl Tally {
    /// The empty sum.
    pub fn zero() -> (t: Tally)
        ensures
            t@ == 0,
            t.high == 0,
    {
        Tally { high: 0, low: 0 }
    }

    /// Adds `value` to the sum.
    pub fn add(&mut self, value: u128)
        requires
            old(self).high < u64::MAX,
        ensures
            final(self)@ == old(self)@ + value,
            final(self).high <= old(self).high + 1,
    {
        if self.low > u128::MAX - value {
            self.low = self.low - (u128::MAX - value) - 1;
            self.high = self.high + 1;
        } else {
            self.low = self.low + value;
        }
    }

    /// `self - other` where that is a number from 0 to 2^128 - 1.
    pub fn minus(&self, other: &Tally) -> (r: Option<u128>)
        ensures
            match r {
                Some(d) => self@ == other@ + d,
                None => self@ < other@ || self@ - other@ >= tally_base(),
            },
    {
        if self.high == other.high {
            if self.low >= other.low {
                Some(self.low - other.low)
            } else {
                None
            }
        } else if self.high > other.high && self.high - other.high == 1 && self.low < other.low {
            Some(u128::MAX - other.low + self.low + 1)
        } else {
            assert(self.high > other.high ==> self@ - other@ >= tally_base()) by (nonlinear_arith)
                requires
                    self@ == self.high as nat * tally_base() + self.low as nat,
                    other@ == other.high as nat * tally_base() + other.low as nat,
                    !(self.high - other.high == 1 && self.low < other.low),
                    self.low < tally_base(),
                    other.low < tally_base(),
            ;
            assert(self.high < other.high ==> self@ < other@) by (nonlinear_arith)
                requires
                    self@ == self.high as nat * tally_base() + self.low as nat,
                    other@ == other.high as nat * tally_base() + other.low as nat,
                    self.low < tally_base(),
                    other.low < tally_base(),
            ;
            None
        }
    }
}

/// The Merkle root of a list of transactions.
#[derive(Clone, Copy, Debug, PartialEq, Eq, Structural)]
pub struct MerkleRoot(pub crate::sha256::Hash);

/// The encoding of a list of two hashes: the count, then the hashes.
pub open spec fn pair_encoding(left: crate::sha256::Hash, right: crate::sha256::Hash) -> Seq<u8> {
    u64_be(2) + left.0.encoding() + right.0.encoding()
}

/// The layer above `layer`: the hash of each adjacent pair; a last hash
/// without a partner is paired with itself.
pub open spec fn merkle_layer(layer: Seq<crate::sha256::Hash>) -> Seq<crate::sha256::Hash> {
    Seq::new(
        ((layer.len() + 1) / 2) as nat,
        |i: int|
            crate::sha256::Hash::of(
                pair_encoding(
                    layer[2 * i],
                    if 2 * i + 1 < layer.len() {
                        layer[2 * i + 1]
                    } else {
                        layer[2 * i]
                    },
                ),
            ),
    )
}

/// The single hash that is left when `layer` is collapsed again and again.
pub open spec fn merkle_fold(layer: Seq<crate::sha256::Hash>) -> crate::sha256::Hash
    decreases layer.len(),
{
    if layer.len() <= 1 {
        layer[0]
    } else {
        merkle_fold(merkle_layer(layer))
    }
}

/// The hashes of some transactions, in order.
pub open spec fn leaf_hashes(txs: Seq<TransactionView>) -> Seq<crate::sha256::Hash> {
    Seq::new(txs.len(), |i: int| txs[i].hash())
}

/// The Merkle root of a non-empty list of transactions.
pub open spec fn merkle_root(txs: Seq<TransactionView>) -> crate::sha256::Hash {
    merkle_fold(leaf_hashes(txs))
}

/// The hash of the two-element list `[left, right]`.
pub fn hash_pair(left: &crate::sha256::Hash, right: &crate::sha256::Hash) -> (h:
    crate::sha256::Hash)
    ensures
        h == crate::sha256::Hash::of(pair_encoding(*left, *right)),
{
    let mut bytes: Vec<u8> = Vec::new();
    push_u64(&mut bytes, 2);
    left.0.encode_into(&mut bytes);
    right.0.encode_into(&mut bytes);
    assert(bytes@ =~= pair_encoding(*left, *right));
    crate::sha256::Hash::hash(bytes.as_slice())
}

impl MerkleRoot {
    /// The Merkle root of the transactions of a block. The list is not
    /// empty.
    pub fn calculate(transaction: &[Transaction]) -> (root: MerkleRoot)
        requires
            transaction@.len() > 0,
        ensures
            root.0 == merkle_root(transaction_views(transaction@)),
    {
        let ghost leaves = leaf_hashes(transaction_views(transaction@));
        let mut layer: Vec<crate::sha256::Hash> = Vec::new();
        let mut t: usize = 0;
        while t < transaction.len()
            invariant
                t <= transaction.len(),
                layer@.len() == t,
                forall|j: int| 0 <= j < t ==> layer@[j] == leaves[j],
                leaves == leaf_hashes(transaction_views(transaction@)),
            decreases transaction.len() - t,
        {
            layer.push(transaction[t].hash());
            t = t + 1;
        }
        assert(layer@ =~= leaves);
        while layer.len() > 1
            invariant
                layer@.len() >= 1,
                merkle_fold(layer@) == merkle_fold(leaves),
            decreases layer@.len(),
        {
            let ghost above = merkle_layer(layer@);
            let mut next: Vec<crate::sha256::Hash> = Vec::new();
            let pairs: usize = layer.len() / 2 + layer.len() % 2;
            let mut p: usize = 0;
            while p < pairs
                invariant
                    p <= pairs,
                    pairs == (layer@.len() + 1) / 2,
                    next@.len() == p,
                    above == merkle_layer(layer@),
                    forall|j: int| 0 <= j < next@.len() ==> next@[j] == above[j],
                decreases pairs - p,
            {
                let n = layer.len();
                assert(2 * p + 1 <= n);
                let left = layer[2 * p];
                let right = if 2 * p + 1 < n {
                    layer[2 * p + 1]
                } else {
                    layer[2 * p]
                };
                next.push(hash_pair(&left, &right));
                p = p + 1;
            }
            assert(next@ =~= above);
            layer = next;
        }
        MerkleRoot(layer[0])
    }
}

} // verus!
