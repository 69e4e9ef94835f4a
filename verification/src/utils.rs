//! The Merkle root of a list of transactions.

use crate::codec::{enc_u256, head, put_head, put_u256, MAJOR_ARRAY};
use crate::types::transaction::{views, Transaction, TransactionView};
use vstd::prelude::*;

verus! {

/// The root of the Merkle tree over the hashes of a block's transactions.
#[derive(Clone, Copy, Debug, PartialEq, Eq, Structural)]
pub struct MerkleRoot {
    pub hash: crate::sha256::Hash,
}

/// The encoding of a pair of hashes.
pub open spec fn enc_pair(left: crate::sha256::Hash, right: crate::sha256::Hash) -> Seq<u8> {
    head(MAJOR_ARRAY, 2) + enc_u256(left.value) + enc_u256(right.value)
}

/// The hash of a pair of hashes: the parent of two nodes of the tree.
#[verifier::opaque]
pub open spec fn pair_hash(
    left: crate::sha256::Hash,
    right: crate::sha256::Hash,
) -> crate::sha256::Hash {
    crate::sha256::Hash::of_bytes(enc_pair(left, right))
}

/// The layer above a layer of the tree: the hashes of its pairs. A last node without a
/// partner is paired with itself.
pub open spec fn merkle_layer(layer: Seq<crate::sha256::Hash>) -> Seq<crate::sha256::Hash> {
    Seq::new(
        ((layer.len() + 1) / 2) as nat,
        |i: int|
            pair_hash(
                layer[2 * i],
                if 2 * i + 1 < layer.len() {
                    layer[2 * i + 1]
                } else {
                    layer[2 * i]
                },
            ),
    )
}

/// A layer reduced, layer by layer, to at most one hash.
pub open spec fn merkle_reduce(layer: Seq<crate::sha256::Hash>) -> Seq<crate::sha256::Hash>
    decreases layer.len(),
{
    if layer.len() <= 1 {
        layer
    } else {
        merkle_reduce(merkle_layer(layer))
    }
}

/// The hashes of a list of transactions.
pub open spec fn transaction_hashes(txs: Seq<TransactionView>) -> Seq<crate::sha256::Hash> {
    Seq::new(txs.len(), |i: int| txs[i].spec_hash())
}

/// The Merkle root of a list of transactions; of the empty list, the zero hash.
pub open spec fn merkle_root(txs: Seq<TransactionView>) -> MerkleRoot {
    if txs.len() == 0 {
        MerkleRoot { hash: crate::sha256::Hash { value: crate::u256::U256 { l0: 0, l1: 0, l2: 0, l3: 0 } } }
    } else {
        MerkleRoot { hash: merkle_reduce(transaction_hashes(txs))[0] }
    }
}

/// Reducing a layer leaves one hash, unless the layer is empty.
pub proof fn lemma_merkle_reduce_len(layer: Seq<crate::sha256::Hash>)
    requires
        layer.len() > 0,
    ensures
        merkle_reduce(layer).len() == 1,
    decreases layer.len(),
{
    if layer.len() > 1 {
        lemma_merkle_reduce_len(merkle_layer(layer));
    }
}

/// The hash of a pair of hashes.
pub fn hash_pair(left: &crate::sha256::Hash, right: &crate::sha256::Hash) -> (h: crate::sha256::Hash)
    ensures
        h == pair_hash(*left, *right),
{
    reveal(pair_hash);
    let mut bytes: Vec<u8> = Vec::new();
    put_head(&mut bytes, MAJOR_ARRAY, 2);
    put_u256(&mut bytes, &left.value);
    put_u256(&mut bytes, &right.value);
    assert(bytes@ =~= enc_pair(*left, *right));
    crate::sha256::Hash::hash_bytes(bytes.as_slice())
}

/// The layer above `layer`.
fn next_layer(layer: &Vec<crate::sha256::Hash>) -> (next: Vec<crate::sha256::Hash>)
    ensures
        next@ == merkle_layer(layer@),
{
    let half: usize = layer.len() / 2 + layer.len() % 2;
    let mut next: Vec<crate::sha256::Hash> = Vec::new();
    let mut k: usize = 0;
    while k < half
        invariant
            0 <= k <= half,
            half == (layer.len() + 1) / 2,
            next@ == merkle_layer(layer@).take(k as int),
        decreases half - k,
    {
        let left: crate::sha256::Hash = layer[2 * k];
        let right: crate::sha256::Hash = if 2 * k + 1 < layer.len() {
            layer[2 * k + 1]
        } else {
            layer[2 * k]
        };
        next.push(hash_pair(&left, &right));
        assert(next@ =~= merkle_layer(layer@).take(k + 1));
        k += 1;
    }
    assert(next@ =~= merkle_layer(layer@));
    next
}

impl MerkleRoot {
    /// The Merkle root of `transactions`.
    pub fn calculate(transactions: &[Transaction]) -> (root: MerkleRoot)
        ensures
            root == merkle_root(views(transactions@)),
    {
        let ghost txs = views(transactions@);
        let mut layer: Vec<crate::sha256::Hash> = Vec::new();
        let mut i: usize = 0;
        while i < transactions.len()
            invariant
                0 <= i <= transactions.len(),
                txs == views(transactions@),
                layer@ == transaction_hashes(txs).take(i as int),
            decreases transactions.len() - i,
        {
            layer.push(transactions[i].hash());
            assert(layer@ =~= transaction_hashes(txs).take(i + 1));
            i += 1;
        }
        assert(layer@ =~= transaction_hashes(txs));
        if layer.len() == 0 {
            return MerkleRoot { hash: crate::sha256::Hash::zero() };
        }
        while layer.len() > 1
            invariant
                layer@.len() >= 1,
                merkle_reduce(layer@) == merkle_reduce(transaction_hashes(txs)),
            decreases layer.len(),
        {
            layer = next_layer(&layer);
        }
        MerkleRoot { hash: layer[0] }
    }
}

} // verus!
