//! Blocks: the header with its proof of work, and the rules that the transactions of a
//! block must meet.

use crate::codec::{
    dec_array, dec_array_items, dec_array_of, dec_int, dec_items, dec_u256, dec_uint, enc_array,
    enc_int, enc_items, enc_u256, enc_uint, get_array, get_array_of, get_int, get_u256, get_uint,
    head, lemma_array_of_round_trip, lemma_concat_assoc,
    lemma_dec_items_fails, lemma_dec_items_step, lemma_enc_items_step, lemma_int_round_trip,
    lemma_occurs_split, lemma_u256_round_trip, lemma_uint_round_trip, occurs, put_head, put_int,
    put_u256, put_uint, MAJOR_ARRAY,
};
use crate::time::Timestamp;
use crate::error::BtcError;
use crate::types::transaction::{
    dec_transaction, enc_transaction, lemma_transaction_round_trip_at, output_total, sum_outputs,
    views, Transaction, TransactionInput, TransactionOutput, TransactionView,
};
use crate::types::utxo::{input_total, sum_inputs, UtxoMap, UtxoSet};
use vstd::arithmetic::power2::pow2;
use crate::u256::U256;
use crate::utils::MerkleRoot;
use vstd::prelude::*;

verus! {

/// The header of a block.
#[derive(Clone, Copy, Debug, PartialEq, Eq, Structural)]
pub struct BlockHeader {
    /// When the block was made.
    pub timestamp: Timestamp,
    /// The number that is varied until the hash of the header meets the target.
    pub nonce: u64,
    /// The hash of the header of the block before this one; zero in the first block.
    pub prev_block_hash: crate::sha256::Hash,
    /// The Merkle root of the block's transactions.
    pub merkle_root: MerkleRoot,
    /// The target that the hash of the header has to meet.
    pub target: U256,
}

/// A block: a header and transactions, the first of which is the coinbase.
#[derive(Debug, PartialEq, Eq)]
pub struct Block {
    pub header: BlockHeader,
    pub transactions: Vec<Transaction>,
}

/// A block as a mathematical value.
pub struct BlockView {
    pub header: BlockHeader,
    pub transactions: Seq<TransactionView>,
}

impl View for Block {
    type V = BlockView;

    open spec fn view(&self) -> BlockView {
        BlockView { header: self.header, transactions: views(self.transactions@) }
    }
}

/// The encoding of an instant: its seconds and its nanoseconds.
pub open spec fn enc_timestamp(t: Timestamp) -> Seq<u8> {
    head(MAJOR_ARRAY, 2) + enc_int(t.secs) + enc_uint(t.nanos as u64)
}

/// The encoding of a header: its five fields in the order of their declaration.
pub open spec fn enc_header(h: BlockHeader) -> Seq<u8> {
    head(MAJOR_ARRAY, 5) + enc_timestamp(h.timestamp) + enc_uint(h.nonce) + enc_u256(
        h.prev_block_hash.value,
    ) + enc_u256(h.merkle_root.hash.value) + enc_u256(h.target)
}

/// The encoding of transactions, as a function.
pub open spec fn transaction_encoder() -> spec_fn(TransactionView) -> Seq<u8> {
    |t: TransactionView| enc_transaction(t)
}

/// The encoding of a block: its header, then its transactions.
pub open spec fn enc_block(b: BlockView) -> Seq<u8> {
    head(MAJOR_ARRAY, 2) + enc_header(b.header) + enc_array(b.transactions, transaction_encoder())
}

/// Appends the encoding of an array of transactions.
pub fn encode_transactions(transactions: &Vec<Transaction>, out: &mut Vec<u8>)
    ensures
        final(out)@ == old(out)@ + enc_array(views(transactions@), transaction_encoder()),
{
    let ghost txs = views(transactions@);
    put_head(out, MAJOR_ARRAY, transactions.len() as u64);
    let ghost start = out@;
    let mut i: usize = 0;
    while i < transactions.len()
        invariant
            0 <= i <= transactions.len(),
            txs == views(transactions@),
            out@ == start + enc_items(txs.take(i as int), transaction_encoder()),
        decreases transactions.len() - i,
    {
        transactions[i].encode(out);
        proof {
            lemma_enc_items_step(start, txs, i as int, transaction_encoder());
        }
        i += 1;
    }
    proof {
        assert(txs.take(i as int) =~= txs);
        lemma_concat_assoc(
            old(out)@,
            head(MAJOR_ARRAY, transactions.len() as u64),
            enc_items(txs, transaction_encoder()),
        );
    }
}

/// A number of steps of a search for a nonce.
pub open spec fn nonce_steps(k: int) -> int {
    k
}

/// Appends the encoding of an instant.
pub fn put_timestamp(out: &mut Vec<u8>, t: &Timestamp)
    ensures
        final(out)@ == old(out)@ + enc_timestamp(*t),
{
    let ghost base = out@;
    put_head(out, MAJOR_ARRAY, 2);
    put_int(out, t.secs);
    proof {
        lemma_concat_assoc(base, head(MAJOR_ARRAY, 2), enc_int(t.secs));
    }
    put_uint(out, t.nanos as u64);
    proof {
        lemma_concat_assoc(base, head(MAJOR_ARRAY, 2) + enc_int(t.secs), enc_uint(t.nanos as u64));
    }
}

impl BlockHeader {
    /// The hash of the header: that of its encoding.
    #[verifier::opaque]
    pub open spec fn spec_hash(self) -> crate::sha256::Hash {
        crate::sha256::Hash::of_bytes(enc_header(self))
    }

    /// Whether the hash of the header meets the header's target.
    pub open spec fn is_mined(self) -> bool {
        self.spec_hash().meets(self.target)
    }

    /// The header with another nonce.
    pub open spec fn with_nonce(self, nonce: u64) -> BlockHeader {
        BlockHeader { nonce, ..self }
    }

    /// Whether the header with its nonce raised by `offset` is mined.
    pub open spec fn hit(self, offset: int) -> bool {
        self.nonce + offset <= u64::MAX && self.with_nonce((self.nonce + offset) as u64).is_mined()
    }

    /// A header with the given fields.
    pub fn new(
        timestamp: Timestamp,
        nonce: u64,
        prev_block_hash: crate::sha256::Hash,
        merkle_root: MerkleRoot,
        target: U256,
    ) -> (h: BlockHeader)
        ensures
            h == (BlockHeader { timestamp, nonce, prev_block_hash, merkle_root, target }),
    {
        BlockHeader { timestamp, nonce, prev_block_hash, merkle_root, target }
    }

    /// Appends the encoding of the header.
    pub fn encode(&self, out: &mut Vec<u8>)
        ensures
            final(out)@ == old(out)@ + enc_header(*self),
    {
        let ghost base = out@;
        put_head(out, MAJOR_ARRAY, 5);
        let ghost mut acc = head(MAJOR_ARRAY, 5);
        put_timestamp(out, &self.timestamp);
        proof {
            lemma_concat_assoc(base, acc, enc_timestamp(self.timestamp));
            acc = acc + enc_timestamp(self.timestamp);
        }
        put_uint(out, self.nonce);
        proof {
            lemma_concat_assoc(base, acc, enc_uint(self.nonce));
            acc = acc + enc_uint(self.nonce);
        }
        put_u256(out, &self.prev_block_hash.value);
        proof {
            lemma_concat_assoc(base, acc, enc_u256(self.prev_block_hash.value));
            acc = acc + enc_u256(self.prev_block_hash.value);
        }
        put_u256(out, &self.merkle_root.hash.value);
        proof {
            lemma_concat_assoc(base, acc, enc_u256(self.merkle_root.hash.value));
            acc = acc + enc_u256(self.merkle_root.hash.value);
        }
        put_u256(out, &self.target);
        proof {
            lemma_concat_assoc(base, acc, enc_u256(self.target));
        }
    }

    /// The hash of the header.
    pub fn hash(&self) -> (h: crate::sha256::Hash)
        ensures
            h == self.spec_hash(),
    {
        reveal(BlockHeader::spec_hash);
        let mut bytes: Vec<u8> = Vec::new();
        self.encode(&mut bytes);
        assert(bytes@ =~= enc_header(*self));
        crate::sha256::Hash::hash_bytes(bytes.as_slice())
    }

    /// Searches for a nonce under which the header is mined, trying the present nonce
    /// and at most `steps` further ones, and says whether it found one. Where the nonce
    /// would pass the largest 64-bit number, it starts again at zero and the timestamp
    /// is set to the current time.
    ///
    /// As long as the nonce does not start again, the search stops at the first nonce
    /// that gives a mined header, and the timestamp stays as it was.
    pub fn mine(&mut self, steps: usize) -> (found: bool)
        ensures
            found == final(self).is_mined(),
            final(self).prev_block_hash == old(self).prev_block_hash,
            final(self).merkle_root == old(self).merkle_root,
            final(self).target == old(self).target,
            !found ==> forall|j: int| 0 <= j <= steps ==> !old(self).hit(j),
            forall|k: int|
                0 <= k <= steps && old(self).hit(k) && (forall|j: int|
                    0 <= j < k ==> !old(self).hit(j)) ==> found && *final(self) == old(
                    self,
                ).with_nonce((old(self).nonce + k) as u64),
            !found && old(self).nonce + steps <= u64::MAX ==> *final(self) == old(self).with_nonce(
                (old(self).nonce + steps) as u64,
            ),
            old(self).nonce + steps <= u64::MAX ==> final(self).timestamp == old(self).timestamp,
            !found ==> final(self).nonce == (old(self).nonce + steps) % 0x1_0000_0000_0000_0000,
            found ==> exists|k: int|
                0 <= k <= steps && final(self).nonce == (old(self).nonce + #[trigger] nonce_steps(k))
                    % 0x1_0000_0000_0000_0000,
    {
        if self.hash().matches_target(self.target) {
            assert(old(self).with_nonce(old(self).nonce) == *old(self));
            assert(old(self).hit(0));
            assert(0 <= 0 <= steps && self.nonce == (old(self).nonce + nonce_steps(0))
                % 0x1_0000_0000_0000_0000);
            return true;
        }
        assert(!old(self).hit(0)) by {
            assert(old(self).with_nonce(old(self).nonce) == *old(self));
        }
        let ghost mut wrapped: bool = false;
        let mut done: usize = 0;
        while done < steps
            invariant
                0 <= done <= steps,
                self.prev_block_hash == old(self).prev_block_hash,
                self.merkle_root == old(self).merkle_root,
                self.target == old(self).target,
                !self.is_mined(),
                forall|j: int| 0 <= j <= done ==> !old(self).hit(j),
                !wrapped ==> old(self).nonce + done <= u64::MAX && *self == old(self).with_nonce(
                    (old(self).nonce + done) as u64,
                ),
                wrapped ==> old(self).nonce + done > u64::MAX,
                self.nonce == (old(self).nonce + done) % 0x1_0000_0000_0000_0000,
            decreases steps - done,
        {
            if self.nonce < u64::MAX {
                self.nonce = self.nonce + 1;
            } else {
                self.nonce = 0;
                self.timestamp = Timestamp::now();
                proof {
                    wrapped = true;
                }
            }
            done += 1;
            if self.hash().matches_target(self.target) {
                proof {
                    if !wrapped {
                        assert(old(self).hit(done as int));
                    }
                    assert(0 <= done <= steps && self.nonce == (old(self).nonce + nonce_steps(
                        done as int,
                    )) % 0x1_0000_0000_0000_0000);
                }
                return true;
            }
            assert(!old(self).hit(done as int));
        }
        false
    }
}

impl Clone for Block {
    fn clone(&self) -> (r: Self)
        ensures
            r@ == self@,
    {
        let transactions: Vec<Transaction> = clone_transactions(&self.transactions);
        Block { header: self.header, transactions }
    }
}

/// A copy of a list of transactions.
pub fn clone_transactions(transactions: &Vec<Transaction>) -> (copy: Vec<Transaction>)
    ensures
        views(copy@) == views(transactions@),
{
    let mut copy: Vec<Transaction> = Vec::new();
    let mut i: usize = 0;
    while i < transactions.len()
        invariant
            0 <= i <= transactions.len(),
            copy@.len() == i,
            forall|k: int| 0 <= k < i ==> (#[trigger] copy@[k])@ == transactions@[k]@,
        decreases transactions.len() - i,
    {
        let one: Transaction = transactions[i].clone();
        copy.push(one);
        i += 1;
    }
    assert(views(copy@) =~= views(transactions@));
    copy
}

/// The transactions of a block but the coinbase.
pub open spec fn spending(txs: Seq<TransactionView>) -> Seq<TransactionView> {
    if txs.len() == 0 {
        txs
    } else {
        txs.subrange(1, txs.len() as int)
    }
}

/// The inputs of a list of transactions, in order.
pub open spec fn all_inputs(txs: Seq<TransactionView>) -> Seq<TransactionInput>
    decreases txs.len(),
{
    if txs.len() == 0 {
        Seq::empty()
    } else {
        all_inputs(txs.drop_last()) + txs.last().inputs
    }
}

/// The outputs of a list of transactions, in order.
pub open spec fn all_outputs(txs: Seq<TransactionView>) -> Seq<TransactionOutput>
    decreases txs.len(),
{
    if txs.len() == 0 {
        Seq::empty()
    } else {
        all_outputs(txs.drop_last()) + txs.last().outputs
    }
}

/// The hashes that a sequence of inputs refers to.
pub open spec fn input_keys(inputs: Seq<TransactionInput>) -> Seq<crate::sha256::Hash> {
    Seq::new(inputs.len(), |i: int| inputs[i].prev_transaction_output_hash)
}

/// The hashes of a sequence of outputs.
pub open spec fn output_keys(outputs: Seq<TransactionOutput>) -> Seq<crate::sha256::Hash> {
    Seq::new(outputs.len(), |i: int| outputs[i].spec_hash())
}

/// The reward for a block at a height: `INITIAL_REWARD` coins, halved once for every
/// `HALVING_INTERVAL` blocks before it.
pub open spec fn spec_block_reward(height: u64) -> nat {
    (crate::INITIAL_REWARD as nat * 100_000_000) / pow2((height / crate::HALVING_INTERVAL) as nat)
}

/// What the transactions of a block but the coinbase take in, less what they pay out.
pub open spec fn spec_miner_fees(block: BlockView, utxos: UtxoMap) -> int {
    input_total(all_inputs(spending(block.transactions)), utxos) - output_total(
        all_outputs(spending(block.transactions)),
    )
}

/// Whether the miner's fees of a block are defined: every input of its transactions but
/// the coinbase refers to an unspent output, no two of them to the same, no two of
/// their outputs have the same hash, and the fees are not negative and fit in 64 bits.
pub open spec fn fees_defined(block: BlockView, utxos: UtxoMap) -> bool {
    let ins = all_inputs(spending(block.transactions));
    let outs = all_outputs(spending(block.transactions));
    &&& forall|i: int|
        0 <= i < ins.len() ==> utxos.contains_key((#[trigger] ins[i]).prev_transaction_output_hash)
    &&& input_keys(ins).no_duplicates()
    &&& output_keys(outs).no_duplicates()
    &&& 0 <= spec_miner_fees(block, utxos) <= u64::MAX
}

/// Whether the coinbase of a block is in order: the block has a first transaction
/// without inputs and with an output, the fees are defined, and the outputs of the
/// coinbase add up to the reward and the fees.
pub open spec fn coinbase_valid(block: BlockView, height: u64, utxos: UtxoMap) -> bool {
    &&& block.transactions.len() > 0
    &&& block.transactions[0].is_coinbase()
    &&& block.transactions[0].outputs.len() > 0
    &&& fees_defined(block, utxos)
    &&& output_total(block.transactions[0].outputs) == spec_block_reward(height) + spec_miner_fees(
        block,
        utxos,
    )
}

/// What is wrong with an input, if anything, given the hashes that earlier inputs of
/// the block referred to.
pub open spec fn input_error(
    input: TransactionInput,
    utxos: UtxoMap,
    seen: Seq<crate::sha256::Hash>,
) -> Option<BtcError> {
    let key = input.prev_transaction_output_hash;
    if !utxos.contains_key(key) || seen.contains(key) {
        Some(BtcError::InvalidTransaction)
    } else if !input.signature.spec_verify(key, utxos[key].1.pubkey) {
        Some(BtcError::InvalidSignature)
    } else {
        None
    }
}

/// The first error among the inputs of a transaction, in order.
pub open spec fn scan_inputs(
    inputs: Seq<TransactionInput>,
    utxos: UtxoMap,
    seen: Seq<crate::sha256::Hash>,
) -> Option<BtcError>
    decreases inputs.len(),
{
    if inputs.len() == 0 {
        None
    } else {
        match input_error(inputs[0], utxos, seen) {
            Some(e) => Some(e),
            None => scan_inputs(
                inputs.drop_first(),
                utxos,
                seen.push(inputs[0].prev_transaction_output_hash),
            ),
        }
    }
}

/// What is wrong with a transaction, if anything: the first error among its inputs, or
/// that it pays out more than it takes in.
#[verifier::opaque]
pub open spec fn transaction_error(
    tx: TransactionView,
    utxos: UtxoMap,
    seen: Seq<crate::sha256::Hash>,
) -> Option<BtcError> {
    match scan_inputs(tx.inputs, utxos, seen) {
        Some(e) => Some(e),
        None => if input_total(tx.inputs, utxos) < output_total(tx.outputs) {
            Some(BtcError::InvalidTransaction)
        } else {
            None
        },
    }
}

/// The first error among a list of transactions, in order.
#[verifier::opaque]
pub open spec fn scan_transactions(
    txs: Seq<TransactionView>,
    utxos: UtxoMap,
    seen: Seq<crate::sha256::Hash>,
) -> Option<BtcError>
    decreases txs.len(),
{
    if txs.len() == 0 {
        None
    } else {
        match transaction_error(txs[0], utxos, seen) {
            Some(e) => Some(e),
            None => scan_transactions(txs.drop_first(), utxos, seen + input_keys(txs[0].inputs)),
        }
    }
}

/// The verdict on the transactions of a block: the block must not be empty, its
/// coinbase must be in order, and then the first error among the other transactions
/// decides.
#[verifier::opaque]
pub open spec fn spec_verify_transactions(block: BlockView, height: u64, utxos: UtxoMap) -> Result<
    (),
    BtcError,
> {
    if !coinbase_valid(block, height, utxos) {
        Err(BtcError::InvalidTransaction)
    } else {
        match scan_transactions(spending(block.transactions), utxos, Seq::empty()) {
            Some(e) => Err(e),
            None => Ok(()),
        }
    }
}

/// The inputs of a list with one more transaction.
pub proof fn lemma_all_inputs_push(txs: Seq<TransactionView>, tx: TransactionView)
    ensures
        all_inputs(txs.push(tx)) == all_inputs(txs) + tx.inputs,
{
    assert(txs.push(tx).drop_last() =~= txs);
}

/// The outputs of a list with one more transaction.
pub proof fn lemma_all_outputs_push(txs: Seq<TransactionView>, tx: TransactionView)
    ensures
        all_outputs(txs.push(tx)) == all_outputs(txs) + tx.outputs,
{
    assert(txs.push(tx).drop_last() =~= txs);
}

/// The first error from the input at `i` on is that of the input, or else the first
/// error after it.
pub proof fn lemma_scan_inputs_step(
    inputs: Seq<TransactionInput>,
    i: int,
    utxos: UtxoMap,
    seen: Seq<crate::sha256::Hash>,
)
    requires
        0 <= i < inputs.len(),
    ensures
        scan_inputs(inputs.skip(i), utxos, seen) == match input_error(inputs[i], utxos, seen) {
            Some(e) => Some(e),
            None => scan_inputs(
                inputs.skip(i + 1),
                utxos,
                seen.push(inputs[i].prev_transaction_output_hash),
            ),
        },
{
    assert(inputs.skip(i)[0] == inputs[i]);
    assert(inputs.skip(i).drop_first() =~= inputs.skip(i + 1));
}

/// The first error from the transaction at `j` on is that of the transaction, or else
/// the first error after it.
pub proof fn lemma_scan_transactions_step(
    txs: Seq<TransactionView>,
    j: int,
    utxos: UtxoMap,
    seen: Seq<crate::sha256::Hash>,
)
    requires
        0 <= j < txs.len(),
    ensures
        scan_transactions(txs.skip(j), utxos, seen) == match transaction_error(txs[j], utxos, seen) {
            Some(e) => Some(e),
            None => scan_transactions(txs.skip(j + 1), utxos, seen + input_keys(txs[j].inputs)),
        },
{
    reveal(scan_transactions);
    assert(txs.skip(j)[0] == txs[j]);
    assert(txs.skip(j).drop_first() =~= txs.skip(j + 1));
}

/// There is no error among no transactions.
pub proof fn lemma_scan_transactions_end(
    txs: Seq<TransactionView>,
    utxos: UtxoMap,
    seen: Seq<crate::sha256::Hash>,
)
    requires
        txs.len() == 0,
    ensures
        scan_transactions(txs, utxos, seen).is_none(),
{
    reveal(scan_transactions);
}

/// Checks the inputs of a transaction in order and adds the hashes they refer to to
/// `seen`.
fn check_inputs(
    inputs: &Vec<TransactionInput>,
    utxos: &UtxoSet,
    seen: &mut Vec<crate::sha256::Hash>,
) -> (r: Option<BtcError>)
    ensures
        r == scan_inputs(inputs@, utxos@, old(seen)@),
        r.is_none() ==> final(seen)@ == old(seen)@ + input_keys(inputs@),
{
    let mut i: usize = 0;
    assert(inputs@.skip(0) =~= inputs@);
    assert(seen@ =~= old(seen)@ + input_keys(inputs@.take(0)));
    while i < inputs.len()
        invariant
            0 <= i <= inputs.len(),
            seen@ == old(seen)@ + input_keys(inputs@.take(i as int)),
            scan_inputs(inputs@, utxos@, old(seen)@) == scan_inputs(
                inputs@.skip(i as int),
                utxos@,
                seen@,
            ),
        decreases inputs.len() - i,
    {
        let input: TransactionInput = inputs[i];
        let key: crate::sha256::Hash = input.prev_transaction_output_hash;
        proof {
            lemma_scan_inputs_step(inputs@, i as int, utxos@, seen@);
        }
        let prev_output: TransactionOutput = match utxos.get(&key) {
            Some(found) => found.1,
            None => {
                return Some(BtcError::InvalidTransaction);
            },
        };
        if contains_hash(seen, &key) {
            return Some(BtcError::InvalidTransaction);
        }
        if !input.signature.verify(&key, &prev_output.pubkey) {
            return Some(BtcError::InvalidSignature);
        }
        seen.push(key);
        assert(seen@ =~= old(seen)@ + input_keys(inputs@.take(i + 1)));
        i += 1;
    }
    assert(inputs@.take(i as int) =~= inputs@);
    assert(inputs@.skip(i as int).len() == 0);
    None
}

/// Checks one transaction and adds the hashes that its inputs refer to to `seen`.
fn check_transaction(tx: &Transaction, utxos: &UtxoSet, seen: &mut Vec<crate::sha256::Hash>) -> (r:
    Option<BtcError>)
    ensures
        r == transaction_error(tx@, utxos@, old(seen)@),
        r.is_none() ==> final(seen)@ == old(seen)@ + input_keys(tx@.inputs),
{
    reveal(transaction_error);
    match check_inputs(&tx.inputs, utxos, seen) {
        Some(e) => {
            return Some(e);
        },
        None => {},
    }
    let taken: u128 = sum_inputs(&tx.inputs, utxos);
    let paid: u128 = sum_outputs(&tx.outputs);
    if taken < paid {
        Some(BtcError::InvalidTransaction)
    } else {
        None
    }
}

/// The transactions but the first of a list, by their places in the list.
pub proof fn lemma_spending_places(txs: Seq<Transaction>)
    requires
        txs.len() > 0,
    ensures
        spending(views(txs)).len() == txs.len() - 1,
        forall|k: int| 0 <= k < txs.len() - 1 ==> (#[trigger] spending(views(txs))[k]) == txs[k + 1]@,
{
}

/// Checks all transactions but the first, in order.
fn check_transactions(transactions: &Vec<Transaction>, utxos: &UtxoSet) -> (r: Option<BtcError>)
    ensures
        r == scan_transactions(spending(views(transactions@)), utxos@, Seq::empty()),
{
    if transactions.len() == 0 {
        proof {
            lemma_scan_transactions_end(spending(views(transactions@)), utxos@, Seq::empty());
        }
        return None;
    }
    let ghost rest = spending(views(transactions@));
    proof {
        lemma_spending_places(transactions@);
        assert(rest.skip(0) =~= rest);
    }
    let mut seen: Vec<crate::sha256::Hash> = Vec::new();
    let mut j: usize = 1;
    while j < transactions.len()
        invariant
            1 <= j <= transactions.len(),
            rest == spending(views(transactions@)),
            rest.len() == transactions.len() - 1,
            forall|k: int| 0 <= k < rest.len() ==> (#[trigger] rest[k]) == transactions@[k + 1]@,
            scan_transactions(rest, utxos@, Seq::empty()) == scan_transactions(
                rest.skip(j - 1),
                utxos@,
                seen@,
            ),
        decreases transactions.len() - j,
    {
        proof {
            assert(rest[j - 1] == transactions@[j as int]@);
            lemma_scan_transactions_step(rest, j - 1, utxos@, seen@);
        }
        match check_transaction(&transactions[j], utxos, &mut seen) {
            Some(e) => {
                return Some(e);
            },
            None => {},
        }
        j += 1;
    }
    proof {
        lemma_scan_transactions_end(rest.skip(j - 1), utxos@, seen@);
    }
    None
}

/// Whether a transaction spends only what is there, with signatures that verify under
/// the keys of the outputs that it spends, and does not pay out more than it takes in.
pub open spec fn transaction_in_order(tx: TransactionView, utxos: UtxoMap) -> bool {
    &&& forall|i: int|
        0 <= i < tx.inputs.len() ==> {
            &&& utxos.contains_key((#[trigger] tx.inputs[i]).prev_transaction_output_hash)
            &&& tx.inputs[i].signature.spec_verify(
                tx.inputs[i].prev_transaction_output_hash,
                utxos[tx.inputs[i].prev_transaction_output_hash].1.pubkey,
            )
        }
    &&& input_total(tx.inputs, utxos) >= output_total(tx.outputs)
}

/// Where no input has an error, every input refers to an unspent output and carries a
/// signature that verifies under that output's key.
pub proof fn lemma_scan_inputs_clean(
    inputs: Seq<TransactionInput>,
    utxos: UtxoMap,
    seen: Seq<crate::sha256::Hash>,
)
    requires
        scan_inputs(inputs, utxos, seen).is_none(),
    ensures
        forall|i: int|
            0 <= i < inputs.len() ==> {
                &&& utxos.contains_key((#[trigger] inputs[i]).prev_transaction_output_hash)
                &&& inputs[i].signature.spec_verify(
                    inputs[i].prev_transaction_output_hash,
                    utxos[inputs[i].prev_transaction_output_hash].1.pubkey,
                )
            },
    decreases inputs.len(),
{
    if inputs.len() > 0 {
        let rest = inputs.drop_first();
        lemma_scan_inputs_clean(rest, utxos, seen.push(inputs[0].prev_transaction_output_hash));
        assert forall|i: int| 0 <= i < inputs.len() implies {
            &&& utxos.contains_key((#[trigger] inputs[i]).prev_transaction_output_hash)
            &&& inputs[i].signature.spec_verify(
                inputs[i].prev_transaction_output_hash,
                utxos[inputs[i].prev_transaction_output_hash].1.pubkey,
            )
        } by {
            if i > 0 {
                assert(rest[i - 1] == inputs[i]);
            }
        }
    }
}

/// Where no transaction has an error, every transaction is in order.
pub proof fn lemma_scan_transactions_clean(
    txs: Seq<TransactionView>,
    utxos: UtxoMap,
    seen: Seq<crate::sha256::Hash>,
)
    requires
        scan_transactions(txs, utxos, seen).is_none(),
    ensures
        forall|j: int| 0 <= j < txs.len() ==> transaction_in_order(#[trigger] txs[j], utxos),
    decreases txs.len(),
{
    reveal(scan_transactions);
    reveal(transaction_error);
    if txs.len() > 0 {
        let rest = txs.drop_first();
        lemma_scan_inputs_clean(txs[0].inputs, utxos, seen);
        lemma_scan_transactions_clean(rest, utxos, seen + input_keys(txs[0].inputs));
        assert forall|j: int| 0 <= j < txs.len() implies transaction_in_order(
            #[trigger] txs[j],
            utxos,
        ) by {
            if j > 0 {
                assert(rest[j - 1] == txs[j]);
            }
        }
    }
}

/// The transactions of a block that passes the check are in order: the coinbase is
/// valid, and every other transaction spends only what is there, is signed by the
/// owners of what it spends, and does not pay out more than it takes in.
pub proof fn lemma_verified_block_in_order(block: BlockView, height: u64, utxos: UtxoMap)
    requires
        spec_verify_transactions(block, height, utxos).is_ok(),
    ensures
        coinbase_valid(block, height, utxos),
        forall|j: int|
            1 <= j < block.transactions.len() ==> transaction_in_order(
                #[trigger] block.transactions[j],
                utxos,
            ),
{
    reveal(spec_verify_transactions);
    let rest = spending(block.transactions);
    lemma_scan_transactions_clean(rest, utxos, Seq::empty());
    assert forall|j: int| 1 <= j < block.transactions.len() implies transaction_in_order(
        #[trigger] block.transactions[j],
        utxos,
    ) by {
        assert(rest[j - 1] == block.transactions[j]);
    }
}

/// The reward for a block at `height`.
pub fn block_reward(height: u64) -> (reward: u64)
    ensures
        reward == spec_block_reward(height),
{
    let halvings: u64 = height / crate::HALVING_INTERVAL;
    let base: u64 = crate::INITIAL_REWARD * 100_000_000;
    if halvings >= 64 {
        proof {
            vstd::arithmetic::power2::lemma2_to64();
            if halvings > 64 {
                vstd::arithmetic::power2::lemma_pow2_strictly_increases(64, halvings as nat);
            }
            vstd::arithmetic::div_mod::lemma_basic_div(base as int, pow2(halvings as nat) as int);
        }
        0
    } else {
        proof {
            vstd::bits::lemma_u64_shr_is_div(base, halvings);
        }
        base >> halvings
    }
}

/// The inputs of all transactions but the first.
fn collect_inputs(transactions: &Vec<Transaction>) -> (ins: Vec<TransactionInput>)
    ensures
        ins@ == all_inputs(spending(views(transactions@))),
{
    let ghost rest = spending(views(transactions@));
    let mut ins: Vec<TransactionInput> = Vec::new();
    if transactions.len() == 0 {
        return ins;
    }
    let mut j: usize = 1;
    while j < transactions.len()
        invariant
            1 <= j <= transactions.len(),
            rest == spending(views(transactions@)),
            ins@ == all_inputs(rest.take(j - 1)),
        decreases transactions.len() - j,
    {
        let ghost before = ins@;
        let mut i: usize = 0;
        while i < transactions[j].inputs.len()
            invariant
                j < transactions.len(),
                0 <= i <= transactions[j as int].inputs.len(),
                ins@ == before + transactions[j as int].inputs@.take(i as int),
            decreases transactions[j as int].inputs.len() - i,
        {
            ins.push(transactions[j].inputs[i]);
            assert(ins@ =~= before + transactions[j as int].inputs@.take(i + 1));
            i += 1;
        }
        proof {
            assert(transactions[j as int].inputs@.take(i as int) =~= transactions[j as int].inputs@);
            lemma_all_inputs_push(rest.take(j - 1), rest[j - 1]);
            assert(rest.take(j as int) =~= rest.take(j - 1).push(rest[j - 1]));
        }
        j += 1;
    }
    assert(rest.take(j - 1) =~= rest);
    ins
}

/// The outputs of all transactions but the first.
fn collect_outputs(transactions: &Vec<Transaction>) -> (outs: Vec<TransactionOutput>)
    ensures
        outs@ == all_outputs(spending(views(transactions@))),
{
    let ghost rest = spending(views(transactions@));
    let mut outs: Vec<TransactionOutput> = Vec::new();
    if transactions.len() == 0 {
        return outs;
    }
    let mut j: usize = 1;
    while j < transactions.len()
        invariant
            1 <= j <= transactions.len(),
            rest == spending(views(transactions@)),
            outs@ == all_outputs(rest.take(j - 1)),
        decreases transactions.len() - j,
    {
        let ghost before = outs@;
        let mut i: usize = 0;
        while i < transactions[j].outputs.len()
            invariant
                j < transactions.len(),
                0 <= i <= transactions[j as int].outputs.len(),
                outs@ == before + transactions[j as int].outputs@.take(i as int),
            decreases transactions[j as int].outputs.len() - i,
        {
            outs.push(transactions[j].outputs[i]);
            assert(outs@ =~= before + transactions[j as int].outputs@.take(i + 1));
            i += 1;
        }
        proof {
            assert(transactions[j as int].outputs@.take(i as int) =~= transactions[j as
                int].outputs@);
            lemma_all_outputs_push(rest.take(j - 1), rest[j - 1]);
            assert(rest.take(j as int) =~= rest.take(j - 1).push(rest[j - 1]));
        }
        j += 1;
    }
    assert(rest.take(j - 1) =~= rest);
    outs
}

/// The hashes that some inputs refer to.
pub fn keys_of_inputs(inputs: &Vec<TransactionInput>) -> (keys: Vec<crate::sha256::Hash>)
    ensures
        keys@ == input_keys(inputs@),
{
    let mut keys: Vec<crate::sha256::Hash> = Vec::new();
    let mut i: usize = 0;
    while i < inputs.len()
        invariant
            0 <= i <= inputs.len(),
            keys@ == input_keys(inputs@).take(i as int),
        decreases inputs.len() - i,
    {
        keys.push(inputs[i].prev_transaction_output_hash);
        assert(keys@ =~= input_keys(inputs@).take(i + 1));
        i += 1;
    }
    assert(keys@ =~= input_keys(inputs@));
    keys
}

/// The hashes of some outputs.
pub fn keys_of_outputs(outputs: &Vec<TransactionOutput>) -> (keys: Vec<crate::sha256::Hash>)
    ensures
        keys@ == output_keys(outputs@),
{
    let mut keys: Vec<crate::sha256::Hash> = Vec::new();
    let mut i: usize = 0;
    while i < outputs.len()
        invariant
            0 <= i <= outputs.len(),
            keys@ == output_keys(outputs@).take(i as int),
        decreases outputs.len() - i,
    {
        keys.push(outputs[i].hash());
        assert(keys@ =~= output_keys(outputs@).take(i + 1));
        i += 1;
    }
    assert(keys@ =~= output_keys(outputs@));
    keys
}

/// Whether a hash is among some hashes.
pub fn contains_hash(hashes: &Vec<crate::sha256::Hash>, hash: &crate::sha256::Hash) -> (r: bool)
    ensures
        r == hashes@.contains(*hash),
{
    let mut i: usize = 0;
    while i < hashes.len()
        invariant
            0 <= i <= hashes.len(),
            forall|k: int| 0 <= k < i ==> hashes@[k] != *hash,
        decreases hashes.len() - i,
    {
        if hashes[i] == *hash {
            return true;
        }
        i += 1;
    }
    false
}

/// Whether some hash occurs twice among some hashes.
pub fn has_duplicates(hashes: &Vec<crate::sha256::Hash>) -> (r: bool)
    ensures
        r == !hashes@.no_duplicates(),
{
    let mut j: usize = 0;
    while j < hashes.len()
        invariant
            0 <= j <= hashes.len(),
            forall|a: int, b: int| 0 <= a < b < j ==> hashes@[a] != hashes@[b],
        decreases hashes.len() - j,
    {
        let mut i: usize = 0;
        while i < j
            invariant
                0 <= i <= j < hashes.len(),
                forall|a: int| 0 <= a < i ==> hashes@[a] != hashes@[j as int],
            decreases j - i,
        {
            if hashes[i] == hashes[j] {
                return true;
            }
            i += 1;
        }
        j += 1;
    }
    false
}

/// Whether every input refers to an output that the index holds.
pub fn all_present(inputs: &Vec<TransactionInput>, utxos: &UtxoSet) -> (r: bool)
    ensures
        r == forall|i: int|
            0 <= i < inputs@.len() ==> utxos@.contains_key(
                (#[trigger] inputs@[i]).prev_transaction_output_hash,
            ),
{
    let mut i: usize = 0;
    while i < inputs.len()
        invariant
            0 <= i <= inputs.len(),
            forall|k: int|
                0 <= k < i ==> utxos@.contains_key(
                    (#[trigger] inputs@[k]).prev_transaction_output_hash,
                ),
        decreases inputs.len() - i,
    {
        if !utxos.contains_key(&inputs[i].prev_transaction_output_hash) {
            return false;
        }
        i += 1;
    }
    true
}

impl BlockView {
    /// The hash of the block: that of its encoding.
    #[verifier::opaque]
    pub open spec fn spec_hash(self) -> crate::sha256::Hash {
        crate::sha256::Hash::of_bytes(enc_block(self))
    }
}

impl Block {
    /// A block with the given header and transactions.
    pub fn new(header: BlockHeader, transactions: Vec<Transaction>) -> (b: Block)
        ensures
            b.header == header,
            b.transactions == transactions,
    {
        Block { header, transactions }
    }

    /// Appends the encoding of the block.
    pub fn encode(&self, out: &mut Vec<u8>)
        ensures
            final(out)@ == old(out)@ + enc_block(self@),
    {
        let ghost base = out@;
        put_head(out, MAJOR_ARRAY, 2);
        self.header.encode(out);
        proof {
            lemma_concat_assoc(base, head(MAJOR_ARRAY, 2), enc_header(self.header));
        }
        encode_transactions(&self.transactions, out);
        proof {
            lemma_concat_assoc(
                base,
                head(MAJOR_ARRAY, 2) + enc_header(self.header),
                enc_array(views(self.transactions@), transaction_encoder()),
            );
        }
    }

    /// The encoding of the block.
    pub fn save(&self) -> (bytes: Vec<u8>)
        ensures
            bytes@ == enc_block(self@),
    {
        let mut bytes: Vec<u8> = Vec::new();
        self.encode(&mut bytes);
        assert(bytes@ =~= enc_block(self@));
        bytes
    }

    /// The miner's fees of the block: what its transactions but the coinbase take in,
    /// less what they pay out. `InvalidTransaction` where the fees are not defined.
    pub fn calculate_miner_fees(&self, utxos: &UtxoSet) -> (r: Result<u64, BtcError>)
        ensures
            match r {
                Ok(fees) => fees_defined(self@, utxos@) && fees == spec_miner_fees(self@, utxos@),
                Err(e) => e == BtcError::InvalidTransaction && !fees_defined(self@, utxos@),
            },
    {
        let ins: Vec<TransactionInput> = collect_inputs(&self.transactions);
        let outs: Vec<TransactionOutput> = collect_outputs(&self.transactions);
        if !all_present(&ins, utxos) {
            return Err(BtcError::InvalidTransaction);
        }
        let in_keys: Vec<crate::sha256::Hash> = keys_of_inputs(&ins);
        if has_duplicates(&in_keys) {
            return Err(BtcError::InvalidTransaction);
        }
        let out_keys: Vec<crate::sha256::Hash> = keys_of_outputs(&outs);
        if has_duplicates(&out_keys) {
            return Err(BtcError::InvalidTransaction);
        }
        let taken: u128 = sum_inputs(&ins, utxos);
        let paid: u128 = sum_outputs(&outs);
        if taken < paid {
            return Err(BtcError::InvalidTransaction);
        }
        let fees: u128 = taken - paid;
        if fees > u64::MAX as u128 {
            return Err(BtcError::InvalidTransaction);
        }
        Ok(fees as u64)
    }

    /// Checks the coinbase of the block against the reward at `predicted_block_height`
    /// and the miner's fees.
    pub fn verify_coinbase_transaction(&self, predicted_block_height: u64, utxos: &UtxoSet) -> (r:
        Result<(), BtcError>)
        ensures
            r == if coinbase_valid(self@, predicted_block_height, utxos@) {
                Ok::<(), BtcError>(())
            } else {
                Err(BtcError::InvalidTransaction)
            },
    {
        if self.transactions.len() == 0 {
            return Err(BtcError::InvalidTransaction);
        }
        if self.transactions[0].inputs.len() != 0 {
            return Err(BtcError::InvalidTransaction);
        }
        if self.transactions[0].outputs.len() == 0 {
            return Err(BtcError::InvalidTransaction);
        }
        let fees: u64 = match self.calculate_miner_fees(utxos) {
            Ok(fees) => fees,
            Err(e) => {
                return Err(BtcError::InvalidTransaction);
            },
        };
        let reward: u64 = block_reward(predicted_block_height);
        let paid: u128 = sum_outputs(&self.transactions[0].outputs);
        if paid != reward as u128 + fees as u128 {
            return Err(BtcError::InvalidTransaction);
        }
        Ok(())
    }

    /// Checks the transactions of the block against the index of unspent outputs, for a
    /// block that is to stand at `predicted_block_height`.
    pub fn verify_transactions(&self, predicted_block_height: u64, utxos: &UtxoSet) -> (r: Result<
        (),
        BtcError,
    >)
        ensures
            r == spec_verify_transactions(self@, predicted_block_height, utxos@),
    {
        reveal(spec_verify_transactions);
        match self.verify_coinbase_transaction(predicted_block_height, utxos) {
            Ok(_) => {},
            Err(e) => {
                return Err(e);
            },
        }
        match check_transactions(&self.transactions, utxos) {
            Some(e) => Err(e),
            None => Ok(()),
        }
    }

    /// The hash of the whole block.
    pub fn hash(&self) -> (h: crate::sha256::Hash)
        ensures
            h == self@.spec_hash(),
    {
        reveal(BlockView::spec_hash);
        let bytes: Vec<u8> = self.save();
        crate::sha256::Hash::hash_bytes(bytes.as_slice())
    }
}

/// Reads an instant.
#[verifier::opaque]
pub open spec fn dec_timestamp(s: Seq<u8>, at: int) -> Option<(Timestamp, int)> {
    match dec_array_of(s, at, 2) {
        Some(at1) => match dec_int(s, at1) {
            Some((secs, at2)) => match dec_uint(s, at2) {
                Some((nanos, at3)) => if nanos <= u32::MAX {
                    Some((Timestamp { secs, nanos: nanos as u32 }, at3))
                } else {
                    None
                },
                None => None,
            },
            None => None,
        },
        None => None,
    }
}

/// Reads a header.
#[verifier::opaque]
pub open spec fn dec_header(s: Seq<u8>, at: int) -> Option<(BlockHeader, int)> {
    match dec_array_of(s, at, 5) {
        Some(at1) => match dec_timestamp(s, at1) {
            Some((timestamp, at2)) => match dec_uint(s, at2) {
                Some((nonce, at3)) => match dec_u256(s, at3) {
                    Some((prev, at4)) => match dec_u256(s, at4) {
                        Some((root, at5)) => match dec_u256(s, at5) {
                            Some((target, at6)) => Some(
                                (
                                    BlockHeader {
                                        timestamp,
                                        nonce,
                                        prev_block_hash: crate::sha256::Hash { value: prev },
                                        merkle_root: MerkleRoot {
                                            hash: crate::sha256::Hash { value: root },
                                        },
                                        target,
                                    },
                                    at6,
                                ),
                            ),
                            None => None,
                        },
                        None => None,
                    },
                    None => None,
                },
                None => None,
            },
            None => None,
        },
        None => None,
    }
}

/// The reading of transactions, as a function.
pub open spec fn transaction_decoder() -> spec_fn(Seq<u8>, int) -> Option<(TransactionView, int)> {
    |s: Seq<u8>, at: int| dec_transaction(s, at)
}

/// Reads a block.
#[verifier::opaque]
pub open spec fn dec_block(s: Seq<u8>, at: int) -> Option<(BlockView, int)> {
    match dec_array_of(s, at, 2) {
        Some(at1) => match dec_header(s, at1) {
            Some((header, at2)) => match dec_array_items(s, at2, transaction_decoder()) {
                Some((transactions, at3)) => Some((BlockView { header, transactions }, at3)),
                None => None,
            },
            None => None,
        },
        None => None,
    }
}

/// The block that some bytes stand for, if they are the encoding of one and nothing
/// more.
pub open spec fn spec_load_block(bytes: Seq<u8>) -> Option<BlockView> {
    match dec_block(bytes, 0) {
        Some((block, next)) => if next == bytes.len() {
            Some(block)
        } else {
            None
        },
        None => None,
    }
}

/// Whether the lists of a block are short enough to be written: each has fewer than
/// `2^64` items. Every block in memory is.
pub open spec fn block_fits(block: BlockView) -> bool {
    &&& block.transactions.len() <= u64::MAX
    &&& forall|i: int|
        0 <= i < block.transactions.len() ==> (#[trigger] block.transactions[i]).inputs.len()
            <= u64::MAX && block.transactions[i].outputs.len() <= u64::MAX
}

/// Reading an instant that was written gives it back.
pub proof fn lemma_timestamp_round_trip(s: Seq<u8>, at: int, t: Timestamp)
    requires
        occurs(s, at, enc_timestamp(t)),
    ensures
        dec_timestamp(s, at) == Some((t, at + enc_timestamp(t).len())),
{
    reveal(dec_timestamp);
    let a = head(MAJOR_ARRAY, 2);
    let b = enc_int(t.secs);
    let c = enc_uint(t.nanos as u64);
    lemma_occurs_split(s, at, a + b, c);
    lemma_occurs_split(s, at, a, b);
    lemma_array_of_round_trip(s, at, 2);
    lemma_int_round_trip(s, at + a.len(), t.secs);
    lemma_uint_round_trip(s, at + a.len() + b.len(), t.nanos as u64);
}

/// Reading a header that was written gives it back.
pub proof fn lemma_header_round_trip(s: Seq<u8>, at: int, h: BlockHeader)
    requires
        occurs(s, at, enc_header(h)),
    ensures
        dec_header(s, at) == Some((h, at + enc_header(h).len())),
{
    reveal(dec_header);
    let a = head(MAJOR_ARRAY, 5);
    let b = enc_timestamp(h.timestamp);
    let c = enc_uint(h.nonce);
    let d = enc_u256(h.prev_block_hash.value);
    let e = enc_u256(h.merkle_root.hash.value);
    let f = enc_u256(h.target);
    lemma_occurs_split(s, at, a + b + c + d + e, f);
    lemma_occurs_split(s, at, a + b + c + d, e);
    lemma_occurs_split(s, at, a + b + c, d);
    lemma_occurs_split(s, at, a + b, c);
    lemma_occurs_split(s, at, a, b);
    lemma_array_of_round_trip(s, at, 5);
    lemma_timestamp_round_trip(s, at + a.len(), h.timestamp);
    lemma_uint_round_trip(s, at + a.len() + b.len(), h.nonce);
    lemma_u256_round_trip(s, at + a.len() + b.len() + c.len(), h.prev_block_hash.value);
    lemma_u256_round_trip(
        s,
        at + a.len() + b.len() + c.len() + d.len(),
        h.merkle_root.hash.value,
    );
    lemma_u256_round_trip(s, at + a.len() + b.len() + c.len() + d.len() + e.len(), h.target);
}

/// Headers with the same encoding are the same header: a header with another nonce or
/// timestamp is hashed from different bytes.
pub proof fn lemma_header_encoding_injective(a: BlockHeader, b: BlockHeader)
    requires
        enc_header(a) == enc_header(b),
    ensures
        a == b,
{
    let s = enc_header(a);
    crate::codec::lemma_occurs_whole(s);
    lemma_header_round_trip(s, 0, a);
    lemma_header_round_trip(s, 0, b);
}

/// Reading a block that was written gives it back.
pub proof fn lemma_block_round_trip_at(s: Seq<u8>, at: int, block: BlockView)
    requires
        block_fits(block),
        occurs(s, at, enc_block(block)),
    ensures
        dec_block(s, at) == Some((block, at + enc_block(block).len())),
{
    reveal(dec_block);
    let a = head(MAJOR_ARRAY, 2);
    let b = enc_header(block.header);
    let c = enc_array(block.transactions, transaction_encoder());
    lemma_occurs_split(s, at, a + b, c);
    lemma_occurs_split(s, at, a, b);
    lemma_array_of_round_trip(s, at, 2);
    lemma_header_round_trip(s, at + a.len(), block.header);
    lemma_transactions_round_trip(s, at + a.len() + b.len(), block.transactions);
}

/// Reading transactions that were written gives them back.
pub proof fn lemma_transactions_round_trip(s: Seq<u8>, at: int, txs: Seq<TransactionView>)
    requires
        txs.len() <= u64::MAX,
        forall|i: int|
            0 <= i < txs.len() ==> (#[trigger] txs[i]).inputs.len() <= u64::MAX
                && txs[i].outputs.len() <= u64::MAX,
        occurs(s, at, enc_array(txs, transaction_encoder())),
    ensures
        dec_array_items(s, at, transaction_decoder()) == Some(
            (txs, at + enc_array(txs, transaction_encoder()).len()),
        ),
{
    let h = head(MAJOR_ARRAY, txs.len() as u64);
    lemma_occurs_split(s, at, h, enc_items(txs, transaction_encoder()));
    crate::codec::lemma_head_round_trip(s, at, MAJOR_ARRAY, txs.len() as u64);
    lemma_transaction_items_round_trip(s, at + h.len(), txs);
}

/// Reading the items of an array of transactions that were written gives them back.
pub proof fn lemma_transaction_items_round_trip(s: Seq<u8>, at: int, txs: Seq<TransactionView>)
    requires
        forall|i: int|
            0 <= i < txs.len() ==> (#[trigger] txs[i]).inputs.len() <= u64::MAX
                && txs[i].outputs.len() <= u64::MAX,
        occurs(s, at, enc_items(txs, transaction_encoder())),
    ensures
        dec_items(s, at, txs.len(), transaction_decoder()) == Some(
            (txs, at + enc_items(txs, transaction_encoder()).len()),
        ),
    decreases txs.len(),
{
    if txs.len() == 0 {
        assert(txs =~= Seq::<TransactionView>::empty());
    } else {
        let rest = txs.drop_last();
        lemma_occurs_split(
            s,
            at,
            enc_items(rest, transaction_encoder()),
            enc_transaction(txs.last()),
        );
        assert forall|i: int| 0 <= i < rest.len() implies (#[trigger] rest[i]).inputs.len()
            <= u64::MAX && rest[i].outputs.len() <= u64::MAX by {
            assert(rest[i] == txs[i]);
        }
        lemma_transaction_items_round_trip(s, at, rest);
        lemma_transaction_round_trip_at(
            s,
            at + enc_items(rest, transaction_encoder()).len(),
            txs.last(),
        );
        lemma_dec_items_step(s, at, rest.len(), transaction_decoder());
        assert(rest.push(txs.last()) =~= txs);
    }
}

/// Loading what was saved gives back the block.
pub proof fn lemma_block_round_trip(block: BlockView)
    requires
        block_fits(block),
    ensures
        spec_load_block(enc_block(block)) == Some(block),
{
    let s = enc_block(block);
    crate::codec::lemma_occurs_whole(s);
    lemma_block_round_trip_at(s, 0, block);
}

/// Reads an instant.
pub fn decode_timestamp(s: &[u8], at: usize) -> (r: Option<(Timestamp, usize)>)
    ensures
        match r {
            Some((t, next)) => dec_timestamp(s@, at as int) == Some((t, next as int)) && next
                <= s@.len(),
            None => dec_timestamp(s@, at as int).is_none(),
        },
{
    reveal(dec_timestamp);
    let at1: usize = match get_array_of(s, at, 2) {
        Some(p) => p,
        None => {
            return None;
        },
    };
    let (secs, at2) = match get_int(s, at1) {
        Some(found) => found,
        None => {
            return None;
        },
    };
    let (nanos, at3) = match get_uint(s, at2) {
        Some(found) => found,
        None => {
            return None;
        },
    };
    if nanos > u32::MAX as u64 {
        return None;
    }
    Some((Timestamp { secs, nanos: nanos as u32 }, at3))
}

/// Reads an array of transactions.
pub fn decode_transactions(s: &[u8], at: usize) -> (r: Option<(Vec<Transaction>, usize)>)
    ensures
        match r {
            Some((transactions, next)) => dec_array_items(s@, at as int, transaction_decoder())
                == Some((views(transactions@), next as int)) && next <= s@.len(),
            None => dec_array_items(s@, at as int, transaction_decoder()).is_none(),
        },
{
    let (count, start) = match get_array(s, at) {
        Some(found) => found,
        None => {
            return None;
        },
    };
    let mut transactions: Vec<Transaction> = Vec::new();
    let mut place: usize = start;
    let mut k: u64 = 0;
    assert(views(transactions@) =~= Seq::<TransactionView>::empty());
    while k < count
        invariant
            0 <= k <= count,
            place <= s@.len(),
            dec_array(s@, at as int) == Some((count, start as int)),
            dec_items(s@, start as int, k as nat, transaction_decoder()) == Some(
                (views(transactions@), place as int),
            ),
        decreases count - k,
    {
        proof {
            lemma_dec_items_step(s@, start as int, k as nat, transaction_decoder());
        }
        match Transaction::decode(s, place) {
            Some((tx, next)) => {
                let ghost before = views(transactions@);
                let ghost item = tx@;
                transactions.push(tx);
                assert(views(transactions@) =~= before.push(item));
                place = next;
            },
            None => {
                proof {
                    lemma_dec_items_fails(
                        s@,
                        start as int,
                        (k + 1) as nat,
                        count as nat,
                        transaction_decoder(),
                    );
                }
                return None;
            },
        }
        k += 1;
    }
    Some((transactions, place))
}

impl BlockHeader {
    /// Reads a header at the place `at`.
    pub fn decode(s: &[u8], at: usize) -> (r: Option<(BlockHeader, usize)>)
        ensures
            match r {
                Some((h, next)) => dec_header(s@, at as int) == Some((h, next as int)) && next
                    <= s@.len(),
                None => dec_header(s@, at as int).is_none(),
            },
    {
        reveal(dec_header);
        let at1: usize = match get_array_of(s, at, 5) {
            Some(p) => p,
            None => {
                return None;
            },
        };
        let (timestamp, at2) = match decode_timestamp(s, at1) {
            Some(found) => found,
            None => {
                return None;
            },
        };
        let (nonce, at3) = match get_uint(s, at2) {
            Some(found) => found,
            None => {
                return None;
            },
        };
        let (prev, at4) = match get_u256(s, at3) {
            Some(found) => found,
            None => {
                return None;
            },
        };
        let (root, at5) = match get_u256(s, at4) {
            Some(found) => found,
            None => {
                return None;
            },
        };
        let (target, at6) = match get_u256(s, at5) {
            Some(found) => found,
            None => {
                return None;
            },
        };
        Some(
            (
                BlockHeader {
                    timestamp,
                    nonce,
                    prev_block_hash: crate::sha256::Hash { value: prev },
                    merkle_root: MerkleRoot { hash: crate::sha256::Hash { value: root } },
                    target,
                },
                at6,
            ),
        )
    }
}

impl Block {
    /// Reads a block at the place `at`.
    pub fn decode(s: &[u8], at: usize) -> (r: Option<(Block, usize)>)
        ensures
            match r {
                Some((block, next)) => dec_block(s@, at as int) == Some((block@, next as int))
                    && next <= s@.len(),
                None => dec_block(s@, at as int).is_none(),
            },
    {
        reveal(dec_block);
        let at1: usize = match get_array_of(s, at, 2) {
            Some(p) => p,
            None => {
                return None;
            },
        };
        let (header, at2) = match BlockHeader::decode(s, at1) {
            Some(found) => found,
            None => {
                return None;
            },
        };
        let (transactions, at3) = match decode_transactions(s, at2) {
            Some(found) => found,
            None => {
                return None;
            },
        };
        Some((Block { header, transactions }, at3))
    }

    /// The block that `bytes` stand for; `IoError` where they are not the encoding of a
    /// block and nothing more.
    pub fn load(bytes: &[u8]) -> (r: Result<Block, BtcError>)
        ensures
            match r {
                Ok(block) => spec_load_block(bytes@) == Some(block@),
                Err(e) => e == BtcError::IoError && spec_load_block(bytes@).is_none(),
            },
    {
        match Block::decode(bytes, 0) {
            Some((block, next)) => if next == bytes.len() {
                Ok(block)
            } else {
                Err(BtcError::IoError)
            },
            None => Err(BtcError::IoError),
        }
    }
}

} // verus!
