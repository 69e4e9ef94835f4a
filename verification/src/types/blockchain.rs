//! The chain: its blocks, the index of unspent outputs, the target, and the pool of
//! transactions that wait for a block.

use crate::error::BtcError;
use crate::min_target_value;
use crate::time::{whole_seconds, Timestamp};
use crate::codec::{
    dec_array, dec_array_items, dec_array_of, dec_bool, dec_items, dec_u256, enc_array, enc_bool,
    enc_items, enc_u256, get_array, get_array_of, get_bool, get_u256, head,
    lemma_array_of_round_trip, lemma_array_round_trip, lemma_bool_round_trip, lemma_concat_assoc,
    lemma_dec_items_fails, lemma_dec_items_step, lemma_enc_items_step, lemma_head_round_trip,
    lemma_occurs_split, lemma_u256_round_trip, occurs, put_bool, put_head, put_u256, MAJOR_ARRAY,
};
use crate::types::block::{
    block_fits, contains_hash, dec_block, enc_block, lemma_block_round_trip_at,
    spec_verify_transactions, Block, BlockView,
};
use crate::types::transaction::{
    dec_output, decode_output, enc_output, lemma_output_round_trip,
};
use crate::types::utxo::{distinct_keys, entries_map, UtxoEntry};
use crate::types::transaction::{
    views, Transaction, TransactionInput, TransactionOutput, TransactionView,
};
use crate::types::mempool::{
    admissible, ascending, enter_pool, evict, fresh_at, is_admissible, lemma_enter_pool,
    pool_views, release_expired, spec_enter_pool, PoolEntry,
};
use crate::types::utxo::{UtxoMap, UtxoSet};
use crate::u256::{
    decimal_value, is_decimal, lemma_decimal_digits_value, lemma_value_bound, pow256, U256,
};
use crate::utils::{merkle_root, transaction_hashes, MerkleRoot};
use bigdecimal::BigDecimal;
use vstd::prelude::*;

verus! {

/// The chain.
#[derive(Debug)]
pub struct Blockchain {
    utxos: UtxoSet,
    blocks: Vec<Block>,
    target: U256,
    mempool: Vec<PoolEntry>,
}

/// The chain as a mathematical value.
pub struct BlockchainView {
    pub utxos: UtxoMap,
    pub blocks: Seq<BlockView>,
    pub target: nat,
    pub mempool: Seq<(Timestamp, TransactionView)>,
}

/// The blocks of a list as mathematical values.
pub open spec fn block_views(blocks: Seq<Block>) -> Seq<BlockView> {
    Seq::new(blocks.len(), |i: int| blocks[i]@)
}

impl View for Blockchain {
    type V = BlockchainView;

    closed spec fn view(&self) -> BlockchainView {
        BlockchainView {
            utxos: self.utxos@,
            blocks: block_views(self.blocks@),
            target: self.target@,
            mempool: pool_views(self.mempool@),
        }
    }
}

/// The seconds that `DIFFICULTY_UPDATE_INTERVAL` blocks should take.
pub open spec fn ideal_seconds() -> int {
    crate::IDEAL_BLOCK_TIME * crate::DIFFICULTY_UPDATE_INTERVAL
}

/// The target after an adjustment: the old target times the seconds that the last
/// interval took, over the seconds that it should have taken, rounded down; but at
/// least a quarter and at most four times the old target, and at most the largest
/// target allowed.
#[verifier::opaque]
pub open spec fn spec_retarget(target: nat, actual_seconds: int) -> nat {
    let scaled: int = (target * actual_seconds) / ideal_seconds();
    let low: int = target as int / 4;
    let high: int = target as int * 4;
    let clamped: int = if scaled < low {
        low
    } else if scaled > high {
        high
    } else {
        scaled
    };
    if clamped <= min_target_value() {
        clamped as nat
    } else {
        min_target_value()
    }
}

/// The target of a chain after the adjustment that follows a new block: unchanged
/// unless the number of blocks is a positive multiple of `DIFFICULTY_UPDATE_INTERVAL`.
pub open spec fn spec_adjusted_target(blocks: Seq<BlockView>, target: nat) -> nat {
    let interval = crate::DIFFICULTY_UPDATE_INTERVAL as int;
    if blocks.len() == 0 || (blocks.len() as int) % interval != 0 {
        target
    } else {
        spec_retarget(
            target,
            whole_seconds(
                blocks.last().header.timestamp.instant() - blocks[blocks.len()
                    - interval].header.timestamp.instant(),
            ),
        )
    }
}

/// An adjusted target is at most the largest target allowed and at most four times the
/// old target, and not less than a quarter of the old target, rounded down.
pub proof fn lemma_retarget_bounds(target: nat, actual_seconds: int)
    ensures
        spec_retarget(target, actual_seconds) <= min_target_value(),
        spec_retarget(target, actual_seconds) <= 4 * target,
        target <= min_target_value() ==> spec_retarget(target, actual_seconds) >= target / 4,
        target <= min_target_value() ==> 4 * spec_retarget(target, actual_seconds) + 3 >= target,
{
    reveal(spec_retarget);
}

/// Where a quarter of the old target is a whole number, or the scaled target is more
/// than a quarter of the old one, the new target is at least a quarter of the old one:
/// the ratio of new to old lies between 1/4 and 4.
pub proof fn lemma_retarget_ratio(target: nat, actual_seconds: int)
    requires
        target <= min_target_value(),
        target % 4 == 0 || (target * actual_seconds) / ideal_seconds() > target / 4,
    ensures
        target <= 4 * spec_retarget(target, actual_seconds),
        spec_retarget(target, actual_seconds) <= 4 * target,
        spec_retarget(target, actual_seconds) <= min_target_value(),
{
    reveal(spec_retarget);
}

/// Multiplies the number that `digits` stand for by `numer / denom` and rounds down.
///
/// The body calls `bigdecimal`: `BigDecimal::parse_bytes` on the digits, `/` on the
/// two integers, `*`, `with_scale(0)`, and prints the integer of
/// `into_bigint_and_exponent`. The quotient of the two integers is exact because
/// `denom` divides 1000, so it ends after three decimal places; the product is exact;
/// `with_scale(0)` drops the decimal places of a number that is not negative.
#[verifier::external_body]
fn decimal_mul_div(digits: &[u8], numer: i64, denom: u64) -> (out: Vec<u8>)
    requires
        is_decimal(digits@),
        numer >= 0,
        denom > 0,
        1000int % (denom as int) == 0,
    ensures
        is_decimal(out@),
        decimal_value(out@) == (decimal_value(digits@) * numer) / (denom as int),
{
    let value = BigDecimal::parse_bytes(digits, 10).unwrap();
    let ratio = BigDecimal::from(numer) / BigDecimal::from(denom);
    let scaled = (value * ratio).with_scale(0);
    scaled.into_bigint_and_exponent().0.to_string().into_bytes()
}

/// The target times `seconds` over the ideal seconds, rounded down; `None` where that
/// does not fit in 256 bits.
fn scaled_target(target: &U256, seconds: i64) -> (r: Option<U256>)
    requires
        seconds >= 0,
    ensures
        match r {
            Some(v) => v@ == (target@ * seconds) / ideal_seconds(),
            None => (target@ * seconds) / ideal_seconds() >= pow256(),
        },
{
    let digits: Vec<u8> = target.to_decimal();
    proof {
        lemma_decimal_digits_value(target@);
    }
    let out: Vec<u8> = decimal_mul_div(
        digits.as_slice(),
        seconds,
        crate::IDEAL_BLOCK_TIME * crate::DIFFICULTY_UPDATE_INTERVAL,
    );
    U256::from_decimal(out.as_slice())
}

/// The target after an adjustment, for an interval that took `actual_seconds`.
pub fn retarget(target: U256, actual_seconds: i128) -> (r: U256)
    ensures
        r@ == spec_retarget(target@, actual_seconds as int),
{
    reveal(spec_retarget);
    let low: U256 = target.div_rem_u64(4).0;
    let high: Option<U256> = target.checked_mul_u64(4);
    let limit: U256 = crate::min_target();
    proof {
        lemma_value_bound(target);
        lemma_value_bound(low);
    }
    if actual_seconds <= 0 {
        proof {
            lemma_scaled_not_positive(target@, actual_seconds as int);
        }
        return low.min(limit);
    }
    let scaled: Option<U256> = if actual_seconds > i64::MAX as i128 {
        None
    } else {
        scaled_target(&target, actual_seconds as i64)
    };
    proof {
        if actual_seconds > i64::MAX as i128 {
            lemma_scaled_large(target@, actual_seconds as int);
        }
        lemma_scaled_not_negative(target@, actual_seconds as int);
    }
    match scaled {
        Some(v) => {
            proof {
                lemma_value_bound(v);
            }
            let clamped: U256 = if v.lt(&low) {
                low
            } else {
                match high {
                    Some(h) => if h.lt(&v) {
                        h
                    } else {
                        v
                    },
                    None => v,
                }
            };
            clamped.min(limit)
        },
        None => match high {
            Some(h) => {
                proof {
                    lemma_value_bound(h);
                }
                h.min(limit)
            },
            None => limit,
        },
    }
}

/// Scaling by a time that is not positive gives nothing positive.
proof fn lemma_scaled_not_positive(target: nat, actual: int)
    requires
        actual <= 0,
    ensures
        (target * actual) / ideal_seconds() <= 0,
{
    assert(target * actual <= 0) by (nonlinear_arith)
        requires
            target >= 0,
            actual <= 0,
    ;
    vstd::arithmetic::div_mod::lemma_div_is_ordered(target * actual, 0, ideal_seconds());
}

/// Scaling by a time that is not negative gives nothing negative.
proof fn lemma_scaled_not_negative(target: nat, actual: int)
    requires
        actual >= 0,
    ensures
        (target * actual) / ideal_seconds() >= 0,
{
    assert(target * actual >= 0) by (nonlinear_arith)
        requires
            target >= 0,
            actual >= 0,
    ;
    vstd::arithmetic::div_mod::lemma_div_is_ordered(0, target * actual, ideal_seconds());
}

/// Scaling by at least four times the ideal time gives at least four times the target.
proof fn lemma_scaled_large(target: nat, actual: int)
    requires
        actual >= 4 * ideal_seconds(),
    ensures
        (target * actual) / ideal_seconds() >= target * 4,
{
    assert(target * actual >= ideal_seconds() * (target * 4)) by (nonlinear_arith)
        requires
            target >= 0,
            actual >= 4 * ideal_seconds(),
            ideal_seconds() == 500,
    ;
    vstd::arithmetic::div_mod::lemma_div_is_ordered(
        ideal_seconds() * (target * 4),
        target * actual,
        ideal_seconds(),
    );
    vstd::arithmetic::div_mod::lemma_div_multiples_vanish((target * 4) as int, ideal_seconds());
}

/// What a map holds under a key, if anything.
pub open spec fn held(utxos: UtxoMap, key: crate::sha256::Hash) -> Option<(bool, TransactionOutput)> {
    if utxos.contains_key(key) {
        Some(utxos[key])
    } else {
        None
    }
}

/// The index without the outputs that some inputs refer to.
pub open spec fn spend_inputs(utxos: UtxoMap, inputs: Seq<TransactionInput>) -> UtxoMap
    decreases inputs.len(),
{
    if inputs.len() == 0 {
        utxos
    } else {
        spend_inputs(utxos, inputs.drop_last()).remove(inputs.last().prev_transaction_output_hash)
    }
}

/// The index with some outputs added, each under its hash and not reserved.
pub open spec fn index_outputs(utxos: UtxoMap, outputs: Seq<TransactionOutput>) -> UtxoMap
    decreases outputs.len(),
{
    if outputs.len() == 0 {
        utxos
    } else {
        index_outputs(utxos, outputs.drop_last()).insert(
            outputs.last().spec_hash(),
            (false, outputs.last()),
        )
    }
}

/// The index after a transaction: without what it spends, with what it creates.
pub open spec fn apply_transaction(utxos: UtxoMap, tx: TransactionView) -> UtxoMap {
    index_outputs(spend_inputs(utxos, tx.inputs), tx.outputs)
}

/// The index after some transactions, in order.
pub open spec fn apply_transactions(utxos: UtxoMap, txs: Seq<TransactionView>) -> UtxoMap
    decreases txs.len(),
{
    if txs.len() == 0 {
        utxos
    } else {
        apply_transaction(apply_transactions(utxos, txs.drop_last()), txs.last())
    }
}

/// The index after the transactions of some blocks, in order.
pub open spec fn apply_blocks(utxos: UtxoMap, blocks: Seq<BlockView>) -> UtxoMap
    decreases blocks.len(),
{
    if blocks.len() == 0 {
        utxos
    } else {
        apply_transactions(apply_blocks(utxos, blocks.drop_last()), blocks.last().transactions)
    }
}

/// What a rescan settles about a key: nothing, that it is absent, or what it holds.
pub type Verdict = Option<Option<(bool, TransactionOutput)>>;

/// What holds under a key after a rescan with the given verdict.
pub open spec fn settle(verdict: Verdict, before: Option<(bool, TransactionOutput)>) -> Option<
    (bool, TransactionOutput),
> {
    match verdict {
        Some(v) => v,
        None => before,
    }
}

/// The later of two verdicts, where it settles anything; else the earlier.
pub open spec fn later(first: Verdict, second: Verdict) -> Verdict {
    if second.is_some() {
        second
    } else {
        first
    }
}

/// What spending some inputs settles about a key.
pub open spec fn verdict_spend(inputs: Seq<TransactionInput>, key: crate::sha256::Hash) -> Verdict
    decreases inputs.len(),
{
    if inputs.len() == 0 {
        None
    } else if inputs.last().prev_transaction_output_hash == key {
        Some(None)
    } else {
        verdict_spend(inputs.drop_last(), key)
    }
}

/// What adding some outputs settles about a key.
pub open spec fn verdict_index(outputs: Seq<TransactionOutput>, key: crate::sha256::Hash) -> Verdict
    decreases outputs.len(),
{
    if outputs.len() == 0 {
        None
    } else if outputs.last().spec_hash() == key {
        Some(Some((false, outputs.last())))
    } else {
        verdict_index(outputs.drop_last(), key)
    }
}

/// What some transactions settle about a key.
pub open spec fn verdict_transactions(txs: Seq<TransactionView>, key: crate::sha256::Hash) -> Verdict
    decreases txs.len(),
{
    if txs.len() == 0 {
        None
    } else {
        later(
            verdict_transactions(txs.drop_last(), key),
            later(verdict_spend(txs.last().inputs, key), verdict_index(txs.last().outputs, key)),
        )
    }
}

/// What the transactions of some blocks settle about a key.
pub open spec fn verdict_blocks(blocks: Seq<BlockView>, key: crate::sha256::Hash) -> Verdict
    decreases blocks.len(),
{
    if blocks.len() == 0 {
        None
    } else {
        later(
            verdict_blocks(blocks.drop_last(), key),
            verdict_transactions(blocks.last().transactions, key),
        )
    }
}

/// What a key holds after some inputs have been spent.
proof fn lemma_spend_settles(utxos: UtxoMap, inputs: Seq<TransactionInput>, key: crate::sha256::Hash)
    ensures
        held(spend_inputs(utxos, inputs), key) == settle(verdict_spend(inputs, key), held(utxos, key)),
    decreases inputs.len(),
{
    if inputs.len() > 0 {
        lemma_spend_settles(utxos, inputs.drop_last(), key);
    }
}

/// What a key holds after some outputs have been added.
proof fn lemma_index_settles(
    utxos: UtxoMap,
    outputs: Seq<TransactionOutput>,
    key: crate::sha256::Hash,
)
    ensures
        held(index_outputs(utxos, outputs), key) == settle(
            verdict_index(outputs, key),
            held(utxos, key),
        ),
    decreases outputs.len(),
{
    if outputs.len() > 0 {
        lemma_index_settles(utxos, outputs.drop_last(), key);
    }
}

/// What a key holds after some transactions.
proof fn lemma_transactions_settle(
    utxos: UtxoMap,
    txs: Seq<TransactionView>,
    key: crate::sha256::Hash,
)
    ensures
        held(apply_transactions(utxos, txs), key) == settle(
            verdict_transactions(txs, key),
            held(utxos, key),
        ),
    decreases txs.len(),
{
    if txs.len() > 0 {
        let before = apply_transactions(utxos, txs.drop_last());
        lemma_transactions_settle(utxos, txs.drop_last(), key);
        lemma_spend_settles(before, txs.last().inputs, key);
        lemma_index_settles(spend_inputs(before, txs.last().inputs), txs.last().outputs, key);
    }
}

/// What a key holds after a rescan depends on what it held before only where the
/// blocks settle nothing about it.
pub proof fn lemma_blocks_settle(utxos: UtxoMap, blocks: Seq<BlockView>, key: crate::sha256::Hash)
    ensures
        held(apply_blocks(utxos, blocks), key) == settle(
            verdict_blocks(blocks, key),
            held(utxos, key),
        ),
    decreases blocks.len(),
{
    if blocks.len() > 0 {
        lemma_blocks_settle(utxos, blocks.drop_last(), key);
        lemma_transactions_settle(
            apply_blocks(utxos, blocks.drop_last()),
            blocks.last().transactions,
            key,
        );
    }
}

/// Whether some transaction of some block creates the output.
pub open spec fn created_in(blocks: Seq<BlockView>, output: TransactionOutput) -> bool {
    exists|b: int, t: int|
        0 <= b < blocks.len() && 0 <= t < blocks[b].transactions.len() && (
        #[trigger] blocks[b].transactions[t]).outputs.contains(output)
}

/// What adding outputs settles about a key is one of the outputs, under its hash and
/// not reserved.
proof fn lemma_verdict_index_is_output(
    outputs: Seq<TransactionOutput>,
    key: crate::sha256::Hash,
)
    requires
        verdict_index(outputs, key).is_some(),
    ensures
        verdict_index(outputs, key)->Some_0.is_some(),
        !verdict_index(outputs, key)->Some_0->Some_0.0,
        verdict_index(outputs, key)->Some_0->Some_0.1.spec_hash() == key,
        outputs.contains(verdict_index(outputs, key)->Some_0->Some_0.1),
    decreases outputs.len(),
{
    if outputs.len() > 0 {
        if outputs.last().spec_hash() == key {
            assert(outputs[outputs.len() - 1] == outputs.last());
        } else {
            lemma_verdict_index_is_output(outputs.drop_last(), key);
            let found = verdict_index(outputs.drop_last(), key)->Some_0->Some_0.1;
            let i = choose|i: int| 0 <= i < outputs.drop_last().len() && outputs.drop_last()[i] == found;
            assert(outputs[i] == found);
        }
    }
}

/// Where some transactions settle that a key holds an output, one of them creates that
/// output, under its hash and not reserved.
proof fn lemma_verdict_transactions_is_output(
    txs: Seq<TransactionView>,
    key: crate::sha256::Hash,
)
    requires
        verdict_transactions(txs, key).is_some(),
        verdict_transactions(txs, key)->Some_0.is_some(),
    ensures
        !verdict_transactions(txs, key)->Some_0->Some_0.0,
        verdict_transactions(txs, key)->Some_0->Some_0.1.spec_hash() == key,
        exists|t: int|
            0 <= t < txs.len() && (#[trigger] txs[t]).outputs.contains(
                verdict_transactions(txs, key)->Some_0->Some_0.1,
            ),
    decreases txs.len(),
{
    if txs.len() > 0 {
        let last = txs.last();
        if verdict_index(last.outputs, key).is_some() {
            lemma_verdict_index_is_output(last.outputs, key);
            assert(txs[txs.len() - 1] == last);
        } else if verdict_spend(last.inputs, key).is_some() {
            lemma_verdict_spend_is_absent(last.inputs, key);
        } else {
            lemma_verdict_transactions_is_output(txs.drop_last(), key);
            let found = verdict_transactions(txs.drop_last(), key)->Some_0->Some_0.1;
            let t = choose|t: int|
                0 <= t < txs.drop_last().len() && (#[trigger] txs.drop_last()[t]).outputs.contains(
                    found,
                );
            assert(txs[t] == txs.drop_last()[t]);
        }
    }
}

/// What spending inputs settles about a key is that it is absent.
proof fn lemma_verdict_spend_is_absent(inputs: Seq<TransactionInput>, key: crate::sha256::Hash)
    requires
        verdict_spend(inputs, key).is_some(),
    ensures
        verdict_spend(inputs, key)->Some_0.is_none(),
    decreases inputs.len(),
{
    if inputs.len() > 0 && inputs.last().prev_transaction_output_hash != key {
        lemma_verdict_spend_is_absent(inputs.drop_last(), key);
    }
}

/// Where some blocks settle that a key holds an output, a transaction of one of them
/// creates that output, under its hash and not reserved.
proof fn lemma_verdict_blocks_is_output(blocks: Seq<BlockView>, key: crate::sha256::Hash)
    requires
        verdict_blocks(blocks, key).is_some(),
        verdict_blocks(blocks, key)->Some_0.is_some(),
    ensures
        !verdict_blocks(blocks, key)->Some_0->Some_0.0,
        verdict_blocks(blocks, key)->Some_0->Some_0.1.spec_hash() == key,
        created_in(blocks, verdict_blocks(blocks, key)->Some_0->Some_0.1),
    decreases blocks.len(),
{
    if blocks.len() > 0 {
        let last = blocks.last();
        if verdict_transactions(last.transactions, key).is_some() {
            lemma_verdict_transactions_is_output(last.transactions, key);
            let found = verdict_blocks(blocks, key)->Some_0->Some_0.1;
            let t = choose|t: int|
                0 <= t < last.transactions.len() && (#[trigger] last.transactions[t]).outputs.contains(
                    found,
                );
            assert(blocks[blocks.len() - 1].transactions[t].outputs.contains(found));
        } else {
            lemma_verdict_blocks_is_output(blocks.drop_last(), key);
            let found = verdict_blocks(blocks, key)->Some_0->Some_0.1;
            let rest = blocks.drop_last();
            let (b, t) = choose|b: int, t: int|
                0 <= b < rest.len() && 0 <= t < rest[b].transactions.len() && (
                #[trigger] rest[b].transactions[t]).outputs.contains(found);
            assert(blocks[b].transactions[t].outputs.contains(found));
        }
    }
}

/// After a rescan that started from an empty index, every output that the index holds
/// is held under its hash, is not reserved, and was created by a transaction of a
/// block.
pub proof fn lemma_rebuilt_index_holds_outputs_of_blocks(
    blocks: Seq<BlockView>,
    key: crate::sha256::Hash,
)
    requires
        apply_blocks(UtxoMap::empty(), blocks).contains_key(key),
    ensures
        !apply_blocks(UtxoMap::empty(), blocks)[key].0,
        apply_blocks(UtxoMap::empty(), blocks)[key].1.spec_hash() == key,
        created_in(blocks, apply_blocks(UtxoMap::empty(), blocks)[key].1),
{
    lemma_blocks_settle(UtxoMap::empty(), blocks, key);
    lemma_verdict_blocks_is_output(blocks, key);
}

/// Scanning the blocks a second time changes nothing: the rescan is idempotent.
pub proof fn lemma_rebuild_idempotent(utxos: UtxoMap, blocks: Seq<BlockView>)
    ensures
        apply_blocks(apply_blocks(utxos, blocks), blocks) == apply_blocks(utxos, blocks),
{
    let once = apply_blocks(utxos, blocks);
    let twice = apply_blocks(once, blocks);
    assert forall|key: crate::sha256::Hash| held(twice, key) == held(once, key) by {
        lemma_blocks_settle(utxos, blocks, key);
        lemma_blocks_settle(once, blocks, key);
    }
    assert forall|key: crate::sha256::Hash| twice.contains_key(key) == once.contains_key(key) by {
        assert(held(twice, key) == held(once, key));
    }
    assert forall|key: crate::sha256::Hash| twice.contains_key(key) implies twice[key] == once[key] by {
        assert(held(twice, key) == held(once, key));
    }
    assert(twice =~= once);
}

/// Whether a block may follow a chain, and if not, why not. The checks, in order: the
/// block names the tip as its predecessor (the first block names zero); but for the
/// first block, its header is mined; it has transactions; its header holds their Merkle
/// root; it is later than the tip; its transactions are in order.
#[verifier::opaque]
pub open spec fn spec_check_block(chain: BlockchainView, block: BlockView) -> Result<(), BtcError> {
    let first = chain.blocks.len() == 0;
    let tip = chain.blocks.last();
    if first && block.header.prev_block_hash@ != 0 {
        Err(BtcError::InvalidBlock)
    } else if !first && block.header.prev_block_hash != tip.header.spec_hash() {
        Err(BtcError::InvalidBlock)
    } else if !first && !block.header.is_mined() {
        Err(BtcError::InvalidBlock)
    } else if block.transactions.len() == 0 {
        Err(BtcError::InvalidTransaction)
    } else if merkle_root(block.transactions) != block.header.merkle_root {
        Err(BtcError::InvalidMerkleRoot)
    } else if !first && !(block.header.timestamp.instant() > tip.header.timestamp.instant()) {
        Err(BtcError::InvalidBlock)
    } else {
        spec_verify_transactions(block, chain.blocks.len() as u64, chain.utxos)
    }
}

/// Whether a block leaves a pool entry waiting: none of its transactions has the
/// entry's hash.
pub open spec fn unconfirmed_by(block: BlockView) -> spec_fn((Timestamp, TransactionView)) -> bool {
    |entry: (Timestamp, TransactionView)|
        !transaction_hashes(block.transactions).contains(entry.1.spec_hash())
}

/// The chain after a block has been appended: the block is the new tip, the pool has
/// lost the transactions that the block holds, and the target has been adjusted. The
/// index of unspent outputs is as it was.
pub open spec fn spec_append(chain: BlockchainView, block: BlockView) -> BlockchainView {
    BlockchainView {
        utxos: chain.utxos,
        blocks: chain.blocks.push(block),
        target: spec_adjusted_target(chain.blocks.push(block), chain.target),
        mempool: chain.mempool.filter(unconfirmed_by(block)),
    }
}

/// After a block has been appended it is the tip, and the pool holds no transaction of
/// the block.
pub proof fn lemma_append_tip_and_pool(chain: BlockchainView, block: BlockView)
    ensures
        spec_append(chain, block).blocks.last() == block,
        forall|i: int|
            0 <= i < spec_append(chain, block).mempool.len() ==> !transaction_hashes(
                block.transactions,
            ).contains((#[trigger] spec_append(chain, block).mempool[i]).1.spec_hash()),
{
    let pool = chain.mempool.filter(unconfirmed_by(block));
    assert forall|i: int| 0 <= i < pool.len() implies !transaction_hashes(
        block.transactions,
    ).contains((#[trigger] pool[i]).1.spec_hash()) by {
        chain.mempool.lemma_filter_pred(unconfirmed_by(block), i);
    }
}

/// The chain after a transaction has been taken into the pool at the time `now`.
pub open spec fn spec_add_to_mempool(
    chain: BlockchainView,
    tx: TransactionView,
    now: Timestamp,
) -> BlockchainView {
    let after = spec_enter_pool(chain.utxos, chain.mempool, tx, now);
    BlockchainView { utxos: after.0, blocks: chain.blocks, target: chain.target, mempool: after.1 }
}

/// What becomes of a transaction that is handed in at the time `now`: where it may
/// enter the pool, it is taken in; else it is rejected as invalid and the chain stays
/// as it was.
pub open spec fn submission_outcome(
    before: BlockchainView,
    tx: TransactionView,
    now: Timestamp,
    result: Result<(), BtcError>,
    after: BlockchainView,
) -> bool {
    if admissible(tx, before.utxos) {
        result.is_ok() && after == spec_add_to_mempool(before, tx, now)
    } else {
        result == Err::<(), BtcError>(BtcError::InvalidTransaction) && after == before
    }
}

/// The chain after the pool entries that are too old at the time `now` have been
/// evicted and the outputs that they had reserved have been released.
pub open spec fn spec_cleanup(chain: BlockchainView, now: Timestamp) -> BlockchainView {
    BlockchainView {
        utxos: release_expired(chain.utxos, chain.mempool, now),
        blocks: chain.blocks,
        target: chain.target,
        mempool: chain.mempool.filter(fresh_at(now)),
    }
}

/// Whether blocks form a chain: the first names no predecessor, and every other block
/// names the hash of the header before it and is later than the block before it.
pub open spec fn linked(blocks: Seq<BlockView>) -> bool {
    &&& blocks.len() > 0 ==> blocks[0].header.prev_block_hash@ == 0
    &&& forall|i: int|
        0 < i < blocks.len() ==> {
            &&& (#[trigger] blocks[i]).header.prev_block_hash == blocks[i - 1].header.spec_hash()
            &&& blocks[i].header.timestamp.instant() > blocks[i - 1].header.timestamp.instant()
        }
}

/// A block that may follow a chain is well formed: it has transactions, the first of
/// them is a coinbase, its header holds their Merkle root, and its transactions are
/// in order for a block at the height of the chain.
pub proof fn lemma_checked_block_is_well_formed(chain: BlockchainView, block: BlockView)
    requires
        spec_check_block(chain, block).is_ok(),
    ensures
        block.transactions.len() > 0,
        block.transactions[0].is_coinbase(),
        block.header.merkle_root == merkle_root(block.transactions),
        spec_verify_transactions(block, chain.blocks.len() as u64, chain.utxos).is_ok(),
        chain.blocks.len() > 0 ==> block.header.is_mined(),
{
    reveal(spec_check_block);
    crate::types::block::lemma_verified_block_in_order(
        block,
        chain.blocks.len() as u64,
        chain.utxos,
    );
}

/// A chain of blocks stays one when a block that may follow it is appended.
pub proof fn lemma_append_keeps_linked(chain: BlockchainView, block: BlockView)
    requires
        linked(chain.blocks),
        spec_check_block(chain, block).is_ok(),
    ensures
        linked(spec_append(chain, block).blocks),
{
    reveal(spec_check_block);
    let after = chain.blocks.push(block);
    assert forall|i: int| 0 < i < after.len() implies {
        &&& (#[trigger] after[i]).header.prev_block_hash == after[i - 1].header.spec_hash()
        &&& after[i].header.timestamp.instant() > after[i - 1].header.timestamp.instant()
    } by {
        if i < chain.blocks.len() {
            assert(after[i] == chain.blocks[i]);
            assert(after[i - 1] == chain.blocks[i - 1]);
        } else {
            assert(after[i - 1] == chain.blocks.last());
        }
    }
}

/// Filtering one more element.
pub proof fn lemma_filter_step<A>(s: Seq<A>, i: int, pred: spec_fn(A) -> bool)
    requires
        0 <= i < s.len(),
    ensures
        s.take(i + 1).filter(pred) == if pred(s[i]) {
            s.take(i).filter(pred).push(s[i])
        } else {
            s.take(i).filter(pred)
        },
{
    reveal(Seq::filter);
    assert(s.take(i + 1).drop_last() =~= s.take(i));
}

/// Nothing is left of an empty sequence after filtering.
pub proof fn lemma_filter_empty<A>(s: Seq<A>, pred: spec_fn(A) -> bool)
    requires
        s.len() == 0,
    ensures
        s.filter(pred) == Seq::<A>::empty(),
{
    reveal(Seq::filter);
    assert(s =~= Seq::<A>::empty());
}

/// The hashes of a list of transactions.
pub fn hashes_of(transactions: &Vec<Transaction>) -> (hashes: Vec<crate::sha256::Hash>)
    ensures
        hashes@ == transaction_hashes(views(transactions@)),
{
    let mut hashes: Vec<crate::sha256::Hash> = Vec::new();
    let mut i: usize = 0;
    while i < transactions.len()
        invariant
            0 <= i <= transactions.len(),
            hashes@ == transaction_hashes(views(transactions@)).take(i as int),
        decreases transactions.len() - i,
    {
        hashes.push(transactions[i].hash());
        assert(hashes@ =~= transaction_hashes(views(transactions@)).take(i + 1));
        i += 1;
    }
    assert(hashes@ =~= transaction_hashes(views(transactions@)));
    hashes
}

/// The entries of a pool that a block leaves waiting.
fn retain_unconfirmed(pool: &Vec<PoolEntry>, block: &Block) -> (kept: Vec<PoolEntry>)
    ensures
        pool_views(kept@) == pool_views(pool@).filter(unconfirmed_by(block@)),
{
    let hashes: Vec<crate::sha256::Hash> = hashes_of(&block.transactions);
    let ghost all = pool_views(pool@);
    let ghost pred = unconfirmed_by(block@);
    let mut kept: Vec<PoolEntry> = Vec::new();
    let mut i: usize = 0;
    proof {
        lemma_filter_empty(all.take(0), pred);
        assert(pool_views(kept@) =~= all.take(0).filter(pred));
    }
    while i < pool.len()
        invariant
            0 <= i <= pool.len(),
            all == pool_views(pool@),
            pred == unconfirmed_by(block@),
            hashes@ == transaction_hashes(block@.transactions),
            pool_views(kept@) == all.take(i as int).filter(pred),
        decreases pool.len() - i,
    {
        let hash: crate::sha256::Hash = pool[i].1.hash();
        proof {
            lemma_filter_step(all, i as int, pred);
        }
        if !contains_hash(&hashes, &hash) {
            let ghost before = pool_views(kept@);
            let copy: Transaction = pool[i].1.clone();
            kept.push((pool[i].0, copy));
            assert(pool_views(kept@) =~= before.push(all[i as int]));
        }
        i += 1;
    }
    assert(all.take(i as int) =~= all);
    kept
}

/// Applies a transaction to the index: removes what it spends, adds what it creates.
fn apply_to_index(utxos: &mut UtxoSet, tx: &Transaction)
    ensures
        final(utxos)@ == apply_transaction(old(utxos)@, tx@),
{
    let mut i: usize = 0;
    while i < tx.inputs.len()
        invariant
            0 <= i <= tx.inputs.len(),
            utxos@ == spend_inputs(old(utxos)@, tx.inputs@.take(i as int)),
        decreases tx.inputs.len() - i,
    {
        utxos.remove(&tx.inputs[i].prev_transaction_output_hash);
        assert(tx.inputs@.take(i + 1).drop_last() =~= tx.inputs@.take(i as int));
        i += 1;
    }
    assert(tx.inputs@.take(i as int) =~= tx.inputs@);
    let ghost spent = utxos@;
    let mut j: usize = 0;
    while j < tx.outputs.len()
        invariant
            0 <= j <= tx.outputs.len(),
            utxos@ == index_outputs(spent, tx.outputs@.take(j as int)),
        decreases tx.outputs.len() - j,
    {
        utxos.insert(tx.outputs[j].hash(), false, tx.outputs[j]);
        assert(tx.outputs@.take(j + 1).drop_last() =~= tx.outputs@.take(j as int));
        j += 1;
    }
    assert(tx.outputs@.take(j as int) =~= tx.outputs@);
}

/// Applies the transactions of a block to the index, in order.
fn apply_all_to_index(utxos: &mut UtxoSet, transactions: &Vec<Transaction>)
    ensures
        final(utxos)@ == apply_transactions(old(utxos)@, views(transactions@)),
{
    let ghost txs = views(transactions@);
    let mut i: usize = 0;
    while i < transactions.len()
        invariant
            0 <= i <= transactions.len(),
            txs == views(transactions@),
            utxos@ == apply_transactions(old(utxos)@, txs.take(i as int)),
        decreases transactions.len() - i,
    {
        apply_to_index(utxos, &transactions[i]);
        assert(txs.take(i + 1).drop_last() =~= txs.take(i as int));
        i += 1;
    }
    assert(txs.take(i as int) =~= txs);
}

/// A copy of a list of blocks.
fn clone_blocks(blocks: &Vec<Block>) -> (copy: Vec<Block>)
    ensures
        block_views(copy@) == block_views(blocks@),
{
    let mut copy: Vec<Block> = Vec::new();
    let mut i: usize = 0;
    while i < blocks.len()
        invariant
            0 <= i <= blocks.len(),
            copy@.len() == i,
            forall|k: int| 0 <= k < i ==> (#[trigger] copy@[k])@ == blocks@[k]@,
        decreases blocks.len() - i,
    {
        let one: Block = blocks[i].clone();
        copy.push(one);
        i += 1;
    }
    assert(block_views(copy@) =~= block_views(blocks@));
    copy
}

/// A copy of a pool.
fn clone_pool(pool: &Vec<PoolEntry>) -> (copy: Vec<PoolEntry>)
    ensures
        pool_views(copy@) == pool_views(pool@),
{
    let mut copy: Vec<PoolEntry> = Vec::new();
    let mut i: usize = 0;
    while i < pool.len()
        invariant
            0 <= i <= pool.len(),
            copy@.len() == i,
            forall|k: int|
                0 <= k < i ==> (#[trigger] copy@[k]).0 == pool@[k].0 && copy@[k].1@ == pool@[k].1@,
        decreases pool.len() - i,
    {
        let one: Transaction = pool[i].1.clone();
        copy.push((pool[i].0, one));
        i += 1;
    }
    assert(pool_views(copy@) =~= pool_views(pool@));
    copy
}

impl Clone for Blockchain {
    fn clone(&self) -> (r: Self)
        ensures
            r@ == self@,
            r.utxo_entries() == self.utxo_entries(),
    {
        proof {
            use_type_invariant(self);
        }
        Blockchain {
            utxos: self.utxos.clone(),
            blocks: clone_blocks(&self.blocks),
            target: self.target,
            mempool: clone_pool(&self.mempool),
        }
    }
}

/// Applies the transactions of some blocks to the index, in order.
fn rescan(utxos: &mut UtxoSet, blocks: &Vec<Block>)
    ensures
        final(utxos)@ == apply_blocks(old(utxos)@, block_views(blocks@)),
{
    let ghost all = block_views(blocks@);
    let mut i: usize = 0;
    while i < blocks.len()
        invariant
            0 <= i <= blocks.len(),
            all == block_views(blocks@),
            utxos@ == apply_blocks(old(utxos)@, all.take(i as int)),
        decreases blocks.len() - i,
    {
        apply_all_to_index(utxos, &blocks[i].transactions);
        proof {
            assert(all.take(i + 1).drop_last() =~= all.take(i as int));
            assert(all.take(i + 1).last() == blocks@[i as int]@);
        }
        i += 1;
    }
    assert(all.take(i as int) =~= all);
}

impl Blockchain {
    /// The target is never more than the largest target allowed.
    #[verifier::type_invariant]
    spec fn target_is_allowed(self) -> bool {
        self.target@ <= min_target_value()
    }

    /// An empty chain with the largest target allowed.
    pub fn new() -> (chain: Blockchain)
        ensures
            chain@.utxos == UtxoMap::empty(),
            chain@.blocks.len() == 0,
            chain@.target == min_target_value(),
            chain@.mempool.len() == 0,
    {
        Blockchain {
            utxos: UtxoSet::new(),
            blocks: Vec::new(),
            target: crate::min_target(),
            mempool: Vec::new(),
        }
    }

    /// A chain with the given index, blocks and target and an empty pool; `None` where
    /// the target is more than the largest target allowed. The blocks are taken as they
    /// are.
    pub fn from_parts(utxos: UtxoSet, blocks: Vec<Block>, target: U256) -> (r: Option<Blockchain>)
        ensures
            match r {
                Some(chain) => {
                    &&& target@ <= min_target_value()
                    &&& chain@.utxos == utxos@
                    &&& chain@.blocks == block_views(blocks@)
                    &&& chain@.target == target@
                    &&& chain.spec_target() == target
                    &&& chain@.mempool.len() == 0
                    &&& chain.utxo_entries() == utxos.entries()
                },
                None => target@ > min_target_value(),
            },
    {
        let limit: U256 = crate::min_target();
        if !target.le(&limit) {
            return None;
        }
        Some(Blockchain { utxos, blocks, target, mempool: Vec::new() })
    }

    /// The entries of the index of unspent outputs, in the order in which they are kept.
    pub closed spec fn utxo_entries(&self) -> Seq<crate::types::utxo::UtxoEntry> {
        self.utxos.entries()
    }

    /// The number of blocks.
    pub fn block_height(&self) -> (height: u64)
        ensures
            height == self@.blocks.len(),
    {
        self.blocks.len() as u64
    }

    /// The index of unspent outputs.
    pub fn utxos(&self) -> (utxos: &UtxoSet)
        ensures
            utxos@ == self@.utxos,
            utxos.entries() == self.utxo_entries(),
    {
        &self.utxos
    }

    /// The blocks, the first block first.
    pub fn blocks(&self) -> (blocks: &Vec<Block>)
        ensures
            block_views(blocks@) == self@.blocks,
    {
        &self.blocks
    }

    /// The target that the next block has to meet. It is never more than the largest
    /// target allowed.
    pub fn target(&self) -> (target: U256)
        ensures
            target == self.spec_target(),
            target@ == self@.target,
            target@ <= min_target_value(),
    {
        proof {
            use_type_invariant(self);
        }
        self.target
    }

    /// The pool of waiting transactions, in the order in which they are kept.
    pub fn mempool(&self) -> (pool: &Vec<PoolEntry>)
        ensures
            pool_views(pool@) == self@.mempool,
    {
        &self.mempool
    }

    /// Moves the index out and leaves an empty one.
    fn take_utxos(&mut self) -> (utxos: UtxoSet)
        ensures
            utxos@ == old(self).utxos@,
            utxos.entries() == old(self).utxos.entries(),
            final(self).blocks == old(self).blocks,
            final(self).target == old(self).target,
            final(self).mempool == old(self).mempool,
    {
        proof {
            use_type_invariant(&*self);
        }
        let mut utxos: UtxoSet = UtxoSet::new();
        core::mem::swap(&mut self.utxos, &mut utxos);
        utxos
    }

    /// Moves the blocks out and leaves none.
    fn take_blocks(&mut self) -> (blocks: Vec<Block>)
        ensures
            blocks == old(self).blocks,
            final(self).utxos == old(self).utxos,
            final(self).target == old(self).target,
            final(self).mempool == old(self).mempool,
    {
        proof {
            use_type_invariant(&*self);
        }
        let mut blocks: Vec<Block> = Vec::new();
        core::mem::swap(&mut self.blocks, &mut blocks);
        blocks
    }

    /// Moves the pool out and leaves an empty one.
    fn take_mempool(&mut self) -> (pool: Vec<PoolEntry>)
        ensures
            pool == old(self).mempool,
            final(self).utxos == old(self).utxos,
            final(self).blocks == old(self).blocks,
            final(self).target == old(self).target,
    {
        proof {
            use_type_invariant(&*self);
        }
        let mut pool: Vec<PoolEntry> = Vec::new();
        core::mem::swap(&mut self.mempool, &mut pool);
        pool
    }

    /// Hands in a transaction at the time `now`. Where it may enter the pool, the
    /// conflicts about its inputs are settled, the outputs that it spends are
    /// reserved, and it is put into the pool, which is then in ascending order of fee.
    pub fn add_to_mempool_at(&mut self, transaction: Transaction, now: Timestamp) -> (r: Result<
        (),
        BtcError,
    >)
        ensures
            submission_outcome(old(self)@, transaction@, now, r, final(self)@),
            r.is_ok() ==> forall|i: int|
                0 <= i < transaction@.inputs.len() ==> {
                    &&& final(self)@.utxos.contains_key(
                        (#[trigger] transaction@.inputs[i]).prev_transaction_output_hash,
                    )
                    &&& final(self)@.utxos[transaction@.inputs[i].prev_transaction_output_hash].0
                },
            r.is_ok() ==> final(self)@.mempool.contains((now, transaction@)),
            r.is_ok() ==> ascending(final(self)@.mempool, final(self)@.utxos),
            r.is_err() ==> final(self).utxo_entries() == old(self).utxo_entries(),
            final(self)@.utxos.dom() == old(self)@.utxos.dom(),
    {
        proof {
            use_type_invariant(&*self);
        }
        if !is_admissible(&transaction, &self.utxos) {
            return Err(BtcError::InvalidTransaction);
        }
        proof {
            lemma_enter_pool(old(self)@.utxos, old(self)@.mempool, transaction@, now);
        }
        let mut utxos: UtxoSet = self.take_utxos();
        let mut pool: Vec<PoolEntry> = self.take_mempool();
        enter_pool(&mut utxos, &mut pool, transaction, now);
        self.utxos = utxos;
        self.mempool = pool;
        Ok(())
    }

    /// Hands in a transaction at the current time.
    pub fn add_to_mempool(&mut self, transaction: Transaction) -> (r: Result<(), BtcError>)
        ensures
            exists|now: Timestamp|
                #[trigger] submission_outcome(old(self)@, transaction@, now, r, final(self)@),
            r.is_ok() <==> admissible(transaction@, old(self)@.utxos),
            r.is_ok() ==> forall|i: int|
                0 <= i < transaction@.inputs.len() ==> {
                    &&& final(self)@.utxos.contains_key(
                        (#[trigger] transaction@.inputs[i]).prev_transaction_output_hash,
                    )
                    &&& final(self)@.utxos[transaction@.inputs[i].prev_transaction_output_hash].0
                },
            r.is_ok() ==> ascending(final(self)@.mempool, final(self)@.utxos),
            final(self)@.utxos.dom() == old(self)@.utxos.dom(),
    {
        let now: Timestamp = Timestamp::now();
        let ghost tx = transaction@;
        let r = self.add_to_mempool_at(transaction, now);
        assert(submission_outcome(old(self)@, tx, now, r, self@));
        r
    }

    /// Evicts the pool entries that are too old at the time `now` and releases the
    /// outputs that they had reserved.
    pub fn cleanup_mempool_at(&mut self, now: Timestamp)
        ensures
            final(self)@ == spec_cleanup(old(self)@, now),
    {
        proof {
            use_type_invariant(&*self);
        }
        let mut utxos: UtxoSet = self.take_utxos();
        let mut pool: Vec<PoolEntry> = self.take_mempool();
        evict(&mut utxos, &mut pool, now);
        self.utxos = utxos;
        self.mempool = pool;
    }

    /// Evicts the pool entries that are too old at the current time.
    pub fn cleanup_mempool(&mut self)
        ensures
            exists|now: Timestamp| final(self)@ == #[trigger] spec_cleanup(old(self)@, now),
    {
        let now: Timestamp = Timestamp::now();
        self.cleanup_mempool_at(now);
        assert(self@ == spec_cleanup(old(self)@, now));
    }

    /// Whether `block` may follow the chain.
    pub fn check_block(&self, block: &Block) -> (r: Result<(), BtcError>)
        ensures
            r == spec_check_block(self@, block@),
    {
        reveal(spec_check_block);
        let n: usize = self.blocks.len();
        if n == 0 {
            let zero: crate::sha256::Hash = crate::sha256::Hash::zero();
            if block.header.prev_block_hash != zero {
                proof {
                    if block.header.prev_block_hash@ == 0 {
                        crate::u256::lemma_value_determines_limbs(
                            block.header.prev_block_hash.value,
                            zero.value,
                        );
                    }
                }
                return Err(BtcError::InvalidBlock);
            }
        } else {
            assert(self@.blocks.last() == self.blocks@[n - 1]@);
            if block.header.prev_block_hash != self.blocks[n - 1].header.hash() {
                return Err(BtcError::InvalidBlock);
            }
            if !block.header.hash().matches_target(block.header.target) {
                return Err(BtcError::InvalidBlock);
            }
        }
        if block.transactions.len() == 0 {
            return Err(BtcError::InvalidTransaction);
        }
        let root: MerkleRoot = MerkleRoot::calculate(block.transactions.as_slice());
        if root != block.header.merkle_root {
            return Err(BtcError::InvalidMerkleRoot);
        }
        if n > 0 {
            if !block.header.timestamp.is_after(&self.blocks[n - 1].header.timestamp) {
                return Err(BtcError::InvalidBlock);
            }
        }
        block.verify_transactions(n as u64, &self.utxos)
    }

    /// Appends `block`, if it may follow the chain: then the pool loses the
    /// transactions that the block holds, and the target is adjusted. The index of
    /// unspent outputs is not touched; `rebuild_utxos` brings it up to date. Where the
    /// block is rejected, the chain stays as it was.
    pub fn add_block(&mut self, block: Block) -> (r: Result<(), BtcError>)
        ensures
            r == spec_check_block(old(self)@, block@),
            r.is_ok() ==> final(self)@ == spec_append(old(self)@, block@),
            r.is_err() ==> final(self)@ == old(self)@,
            final(self).utxo_entries() == old(self).utxo_entries(),
            r.is_ok() ==> final(self)@.blocks.last() == block@,
            r.is_ok() ==> forall|i: int|
                0 <= i < final(self)@.mempool.len() ==> !transaction_hashes(
                    block@.transactions,
                ).contains((#[trigger] final(self)@.mempool[i]).1.spec_hash()),
    {
        let checked: Result<(), BtcError> = self.check_block(&block);
        if checked.is_err() {
            return checked;
        }
        proof {
            lemma_append_tip_and_pool(old(self)@, block@);
        }
        self.append(block);
        checked
    }

    /// Appends a block without checking it.
    fn append(&mut self, block: Block)
        ensures
            final(self)@ == spec_append(old(self)@, block@),
            final(self).utxo_entries() == old(self).utxo_entries(),
    {
        proof {
            use_type_invariant(&*self);
        }
        let kept: Vec<PoolEntry> = retain_unconfirmed(&self.mempool, &block);
        self.mempool = kept;
        let ghost appended = block@;
        let mut blocks: Vec<Block> = self.take_blocks();
        let ghost before = block_views(blocks@);
        blocks.push(block);
        assert(block_views(blocks@) =~= before.push(appended));
        self.blocks = blocks;
        self.try_adjust_target();
    }

    /// Adjusts the target where the number of blocks is a positive multiple of
    /// `DIFFICULTY_UPDATE_INTERVAL`: by the time that the last interval took, within a
    /// factor of four, and never beyond the largest target allowed.
    pub fn try_adjust_target(&mut self)
        ensures
            final(self)@.target == spec_adjusted_target(old(self)@.blocks, old(self)@.target),
            final(self)@.target <= min_target_value(),
            final(self)@.target <= 4 * old(self)@.target,
            4 * final(self)@.target + 3 >= old(self)@.target,
            final(self)@.utxos == old(self)@.utxos,
            final(self)@.blocks == old(self)@.blocks,
            final(self)@.mempool == old(self)@.mempool,
            final(self).utxo_entries() == old(self).utxo_entries(),
    {
        proof {
            use_type_invariant(&*self);
        }
        let n: usize = self.blocks.len();
        let interval: usize = crate::DIFFICULTY_UPDATE_INTERVAL as usize;
        if n == 0 || n % interval != 0 {
            return ;
        }
        let start: Timestamp = self.blocks[n - interval].header.timestamp;
        let end: Timestamp = self.blocks[n - 1].header.timestamp;
        let actual: i128 = end.seconds_since(&start);
        proof {
            lemma_retarget_bounds(self.target@, actual as int);
        }
        self.target = retarget(self.target, actual);
    }

    /// Brings the index of unspent outputs up to date by scanning all blocks in order:
    /// each transaction removes the outputs that its inputs refer to and adds its own
    /// outputs, each under its hash and not reserved. What the index held before stays,
    /// unless a block settles otherwise.
    pub fn rebuild_utxos(&mut self)
        ensures
            final(self)@.utxos == apply_blocks(old(self)@.utxos, old(self)@.blocks),
            final(self)@.blocks == old(self)@.blocks,
            final(self)@.target == old(self)@.target,
            final(self)@.mempool == old(self)@.mempool,
    {
        proof {
            use_type_invariant(&*self);
        }
        let mut utxos: UtxoSet = self.take_utxos();
        rescan(&mut utxos, &self.blocks);
        self.utxos = utxos;
    }
}

/// The encoding of an entry of the index: its key, its flag and its output.
pub open spec fn enc_entry(entry: UtxoEntry) -> Seq<u8> {
    head(MAJOR_ARRAY, 3) + enc_u256(entry.key.value) + enc_bool(entry.reserved) + enc_output(
        entry.output,
    )
}

/// The encoding of entries, as a function.
pub open spec fn entry_encoder() -> spec_fn(UtxoEntry) -> Seq<u8> {
    |e: UtxoEntry| enc_entry(e)
}

/// The encoding of blocks, as a function.
pub open spec fn block_encoder() -> spec_fn(BlockView) -> Seq<u8> {
    |b: BlockView| enc_block(b)
}

/// The encoding of a chain: the entries of its index, its blocks and its target. The
/// pool is not written.
pub open spec fn enc_chain(entries: Seq<UtxoEntry>, blocks: Seq<BlockView>, target: U256) -> Seq<u8> {
    head(MAJOR_ARRAY, 3) + enc_array(entries, entry_encoder()) + enc_array(blocks, block_encoder())
        + enc_u256(target)
}

/// Reads an entry of the index.
#[verifier::opaque]
pub open spec fn dec_entry(s: Seq<u8>, at: int) -> Option<(UtxoEntry, int)> {
    match dec_array_of(s, at, 3) {
        Some(at1) => match dec_u256(s, at1) {
            Some((key, at2)) => match dec_bool(s, at2) {
                Some((reserved, at3)) => match dec_output(s, at3) {
                    Some((output, at4)) => Some(
                        (UtxoEntry { key: crate::sha256::Hash { value: key }, reserved, output }, at4),
                    ),
                    None => None,
                },
                None => None,
            },
            None => None,
        },
        None => None,
    }
}

/// The reading of entries, as a function.
pub open spec fn entry_decoder() -> spec_fn(Seq<u8>, int) -> Option<(UtxoEntry, int)> {
    |s: Seq<u8>, at: int| dec_entry(s, at)
}

/// The reading of blocks, as a function.
pub open spec fn block_decoder() -> spec_fn(Seq<u8>, int) -> Option<(BlockView, int)> {
    |s: Seq<u8>, at: int| dec_block(s, at)
}

/// Reads the parts of a chain.
#[verifier::opaque]
pub open spec fn dec_chain(s: Seq<u8>, at: int) -> Option<
    ((Seq<UtxoEntry>, Seq<BlockView>, U256), int),
> {
    match dec_array_of(s, at, 3) {
        Some(at1) => match dec_array_items(s, at1, entry_decoder()) {
            Some((entries, at2)) => match dec_array_items(s, at2, block_decoder()) {
                Some((blocks, at3)) => match dec_u256(s, at3) {
                    Some((target, at4)) => Some(((entries, blocks, target), at4)),
                    None => None,
                },
                None => None,
            },
            None => None,
        },
        None => None,
    }
}

/// The parts of the chain that some bytes stand for, if they are the encoding of a
/// chain and nothing more, no two entries of the index share a key, and the target is
/// not more than the largest target allowed.
pub open spec fn spec_load_chain(bytes: Seq<u8>) -> Option<(Seq<UtxoEntry>, Seq<BlockView>, U256)> {
    match dec_chain(bytes, 0) {
        Some((parts, next)) => if next == bytes.len() && distinct_keys(parts.0) && parts.2@
            <= min_target_value() {
            Some(parts)
        } else {
            None
        },
        None => None,
    }
}

/// Reading an entry that was written gives it back.
pub proof fn lemma_entry_round_trip(s: Seq<u8>, at: int, entry: UtxoEntry)
    requires
        occurs(s, at, enc_entry(entry)),
    ensures
        dec_entry(s, at) == Some((entry, at + enc_entry(entry).len())),
{
    reveal(dec_entry);
    let a = head(MAJOR_ARRAY, 3);
    let b = enc_u256(entry.key.value);
    let c = enc_bool(entry.reserved);
    let d = enc_output(entry.output);
    lemma_occurs_split(s, at, a + b + c, d);
    lemma_occurs_split(s, at, a + b, c);
    lemma_occurs_split(s, at, a, b);
    lemma_array_of_round_trip(s, at, 3);
    lemma_u256_round_trip(s, at + a.len(), entry.key.value);
    lemma_bool_round_trip(s, at + a.len() + b.len(), entry.reserved);
    lemma_output_round_trip(s, at + a.len() + b.len() + c.len(), entry.output);
}

/// Reading the items of an array of blocks that were written gives them back.
pub proof fn lemma_block_items_round_trip(s: Seq<u8>, at: int, blocks: Seq<BlockView>)
    requires
        forall|i: int| 0 <= i < blocks.len() ==> block_fits(#[trigger] blocks[i]),
        occurs(s, at, enc_items(blocks, block_encoder())),
    ensures
        dec_items(s, at, blocks.len(), block_decoder()) == Some(
            (blocks, at + enc_items(blocks, block_encoder()).len()),
        ),
    decreases blocks.len(),
{
    if blocks.len() == 0 {
        assert(blocks =~= Seq::<BlockView>::empty());
    } else {
        let rest = blocks.drop_last();
        lemma_occurs_split(s, at, enc_items(rest, block_encoder()), enc_block(blocks.last()));
        assert forall|i: int| 0 <= i < rest.len() implies block_fits(#[trigger] rest[i]) by {
            assert(rest[i] == blocks[i]);
        }
        lemma_block_items_round_trip(s, at, rest);
        lemma_block_round_trip_at(s, at + enc_items(rest, block_encoder()).len(), blocks.last());
        lemma_dec_items_step(s, at, rest.len(), block_decoder());
        assert(rest.push(blocks.last()) =~= blocks);
    }
}

/// Reading blocks that were written gives them back.
pub proof fn lemma_blocks_round_trip(s: Seq<u8>, at: int, blocks: Seq<BlockView>)
    requires
        blocks.len() <= u64::MAX,
        forall|i: int| 0 <= i < blocks.len() ==> block_fits(#[trigger] blocks[i]),
        occurs(s, at, enc_array(blocks, block_encoder())),
    ensures
        dec_array_items(s, at, block_decoder()) == Some(
            (blocks, at + enc_array(blocks, block_encoder()).len()),
        ),
{
    let h = head(MAJOR_ARRAY, blocks.len() as u64);
    lemma_occurs_split(s, at, h, enc_items(blocks, block_encoder()));
    lemma_head_round_trip(s, at, MAJOR_ARRAY, blocks.len() as u64);
    lemma_block_items_round_trip(s, at + h.len(), blocks);
}

/// Reading entries that were written gives them back.
pub proof fn lemma_entries_round_trip(s: Seq<u8>, at: int, entries: Seq<UtxoEntry>)
    requires
        entries.len() <= u64::MAX,
        occurs(s, at, enc_array(entries, entry_encoder())),
    ensures
        dec_array_items(s, at, entry_decoder()) == Some(
            (entries, at + enc_array(entries, entry_encoder()).len()),
        ),
{
    assert forall|x: UtxoEntry, p: int| #[trigger]
        occurs(s, p, entry_encoder()(x)) implies entry_decoder()(s, p) == Some(
        (x, p + entry_encoder()(x).len()),
    ) by {
        lemma_entry_round_trip(s, p, x);
    }
    lemma_array_round_trip(s, at, entries, entry_encoder(), entry_decoder());
}

/// Reading the parts of a chain that were written gives them back.
pub proof fn lemma_chain_round_trip_at(
    s: Seq<u8>,
    at: int,
    entries: Seq<UtxoEntry>,
    blocks: Seq<BlockView>,
    target: U256,
)
    requires
        entries.len() <= u64::MAX,
        blocks.len() <= u64::MAX,
        forall|i: int| 0 <= i < blocks.len() ==> block_fits(#[trigger] blocks[i]),
        occurs(s, at, enc_chain(entries, blocks, target)),
    ensures
        dec_chain(s, at) == Some(
            ((entries, blocks, target), at + enc_chain(entries, blocks, target).len()),
        ),
{
    reveal(dec_chain);
    let a = head(MAJOR_ARRAY, 3);
    let b = enc_array(entries, entry_encoder());
    let c = enc_array(blocks, block_encoder());
    let d = enc_u256(target);
    lemma_occurs_split(s, at, a + b + c, d);
    lemma_occurs_split(s, at, a + b, c);
    lemma_occurs_split(s, at, a, b);
    lemma_array_of_round_trip(s, at, 3);
    lemma_entries_round_trip(s, at + a.len(), entries);
    lemma_blocks_round_trip(s, at + a.len() + b.len(), blocks);
    lemma_u256_round_trip(s, at + a.len() + b.len() + c.len(), target);
}

/// Loading what was saved gives back the index, the blocks and the target of a chain.
pub proof fn lemma_chain_round_trip(entries: Seq<UtxoEntry>, blocks: Seq<BlockView>, target: U256)
    requires
        distinct_keys(entries),
        target@ <= min_target_value(),
        entries.len() <= u64::MAX,
        blocks.len() <= u64::MAX,
        forall|i: int| 0 <= i < blocks.len() ==> block_fits(#[trigger] blocks[i]),
    ensures
        spec_load_chain(enc_chain(entries, blocks, target)) == Some((entries, blocks, target)),
{
    let s = enc_chain(entries, blocks, target);
    crate::codec::lemma_occurs_whole(s);
    lemma_chain_round_trip_at(s, 0, entries, blocks, target);
}

/// Appends the encoding of an entry of the index.
fn encode_entry(entry: &UtxoEntry, out: &mut Vec<u8>)
    ensures
        final(out)@ == old(out)@ + enc_entry(*entry),
{
    let ghost base = out@;
    put_head(out, MAJOR_ARRAY, 3);
    put_u256(out, &entry.key.value);
    proof {
        lemma_concat_assoc(base, head(MAJOR_ARRAY, 3), enc_u256(entry.key.value));
    }
    put_bool(out, entry.reserved);
    proof {
        lemma_concat_assoc(
            base,
            head(MAJOR_ARRAY, 3) + enc_u256(entry.key.value),
            enc_bool(entry.reserved),
        );
    }
    entry.output.encode(out);
    proof {
        lemma_concat_assoc(
            base,
            head(MAJOR_ARRAY, 3) + enc_u256(entry.key.value) + enc_bool(entry.reserved),
            enc_output(entry.output),
        );
    }
}

/// Appends the encoding of the entries of an index.
fn encode_entries(utxos: &UtxoSet, out: &mut Vec<u8>)
    ensures
        final(out)@ == old(out)@ + enc_array(utxos.entries(), entry_encoder()),
{
    let ghost entries = utxos.entries();
    let n: usize = utxos.len();
    put_head(out, MAJOR_ARRAY, n as u64);
    let ghost start = out@;
    let mut i: usize = 0;
    while i < n
        invariant
            0 <= i <= n,
            n == entries.len(),
            entries == utxos.entries(),
            out@ == start + enc_items(entries.take(i as int), entry_encoder()),
        decreases n - i,
    {
        let entry: UtxoEntry = utxos.entry_at(i);
        encode_entry(&entry, out);
        proof {
            lemma_enc_items_step(start, entries, i as int, entry_encoder());
        }
        i += 1;
    }
    proof {
        assert(entries.take(i as int) =~= entries);
        lemma_concat_assoc(
            old(out)@,
            head(MAJOR_ARRAY, n as u64),
            enc_items(entries, entry_encoder()),
        );
    }
}

/// Appends the encoding of a list of blocks.
fn encode_blocks(blocks: &Vec<Block>, out: &mut Vec<u8>)
    ensures
        final(out)@ == old(out)@ + enc_array(block_views(blocks@), block_encoder()),
{
    let ghost all = block_views(blocks@);
    put_head(out, MAJOR_ARRAY, blocks.len() as u64);
    let ghost start = out@;
    let mut i: usize = 0;
    while i < blocks.len()
        invariant
            0 <= i <= blocks.len(),
            all == block_views(blocks@),
            out@ == start + enc_items(all.take(i as int), block_encoder()),
        decreases blocks.len() - i,
    {
        blocks[i].encode(out);
        proof {
            lemma_enc_items_step(start, all, i as int, block_encoder());
        }
        i += 1;
    }
    proof {
        assert(all.take(i as int) =~= all);
        lemma_concat_assoc(
            old(out)@,
            head(MAJOR_ARRAY, blocks.len() as u64),
            enc_items(all, block_encoder()),
        );
    }
}

/// Reads an entry of the index.
fn decode_entry(s: &[u8], at: usize) -> (r: Option<(UtxoEntry, usize)>)
    ensures
        match r {
            Some((entry, next)) => dec_entry(s@, at as int) == Some((entry, next as int)) && next
                <= s@.len(),
            None => dec_entry(s@, at as int).is_none(),
        },
{
    reveal(dec_entry);
    let at1: usize = match get_array_of(s, at, 3) {
        Some(p) => p,
        None => {
            return None;
        },
    };
    let (key, at2) = match get_u256(s, at1) {
        Some(found) => found,
        None => {
            return None;
        },
    };
    let (reserved, at3) = match get_bool(s, at2) {
        Some(found) => found,
        None => {
            return None;
        },
    };
    let (output, at4) = match decode_output(s, at3) {
        Some(found) => found,
        None => {
            return None;
        },
    };
    Some((UtxoEntry { key: crate::sha256::Hash { value: key }, reserved, output }, at4))
}

/// Reads an array of entries of the index.
fn decode_entries(s: &[u8], at: usize) -> (r: Option<(Vec<UtxoEntry>, usize)>)
    ensures
        match r {
            Some((entries, next)) => dec_array_items(s@, at as int, entry_decoder()) == Some(
                (entries@, next as int),
            ) && next <= s@.len(),
            None => dec_array_items(s@, at as int, entry_decoder()).is_none(),
        },
{
    let (count, start) = match get_array(s, at) {
        Some(found) => found,
        None => {
            return None;
        },
    };
    let mut entries: Vec<UtxoEntry> = Vec::new();
    let mut place: usize = start;
    let mut k: u64 = 0;
    while k < count
        invariant
            0 <= k <= count,
            place <= s@.len(),
            dec_array(s@, at as int) == Some((count, start as int)),
            dec_items(s@, start as int, k as nat, entry_decoder()) == Some(
                (entries@, place as int),
            ),
        decreases count - k,
    {
        proof {
            lemma_dec_items_step(s@, start as int, k as nat, entry_decoder());
        }
        match decode_entry(s, place) {
            Some((entry, next)) => {
                entries.push(entry);
                place = next;
            },
            None => {
                proof {
                    lemma_dec_items_fails(
                        s@,
                        start as int,
                        (k + 1) as nat,
                        count as nat,
                        entry_decoder(),
                    );
                }
                return None;
            },
        }
        k += 1;
    }
    Some((entries, place))
}

/// Reads an array of blocks.
fn decode_blocks(s: &[u8], at: usize) -> (r: Option<(Vec<Block>, usize)>)
    ensures
        match r {
            Some((blocks, next)) => dec_array_items(s@, at as int, block_decoder()) == Some(
                (block_views(blocks@), next as int),
            ) && next <= s@.len(),
            None => dec_array_items(s@, at as int, block_decoder()).is_none(),
        },
{
    let (count, start) = match get_array(s, at) {
        Some(found) => found,
        None => {
            return None;
        },
    };
    let mut blocks: Vec<Block> = Vec::new();
    let mut place: usize = start;
    let mut k: u64 = 0;
    assert(block_views(blocks@) =~= Seq::<BlockView>::empty());
    while k < count
        invariant
            0 <= k <= count,
            place <= s@.len(),
            dec_array(s@, at as int) == Some((count, start as int)),
            dec_items(s@, start as int, k as nat, block_decoder()) == Some(
                (block_views(blocks@), place as int),
            ),
        decreases count - k,
    {
        proof {
            lemma_dec_items_step(s@, start as int, k as nat, block_decoder());
        }
        match Block::decode(s, place) {
            Some((block, next)) => {
                let ghost before = block_views(blocks@);
                let ghost item = block@;
                blocks.push(block);
                assert(block_views(blocks@) =~= before.push(item));
                place = next;
            },
            None => {
                proof {
                    lemma_dec_items_fails(
                        s@,
                        start as int,
                        (k + 1) as nat,
                        count as nat,
                        block_decoder(),
                    );
                }
                return None;
            },
        }
        k += 1;
    }
    Some((blocks, place))
}

impl Blockchain {
    /// The target as a 256-bit value.
    pub closed spec fn spec_target(&self) -> U256 {
        self.target
    }

    /// The encoding of the chain: its index, its blocks and its target, without the
    /// pool.
    pub fn save(&self) -> (bytes: Vec<u8>)
        ensures
            bytes@ == enc_chain(self.utxo_entries(), self@.blocks, self.spec_target()),
    {
        let mut out: Vec<u8> = Vec::new();
        put_head(&mut out, MAJOR_ARRAY, 3);
        encode_entries(&self.utxos, &mut out);
        encode_blocks(&self.blocks, &mut out);
        put_u256(&mut out, &self.target);
        assert(out@ =~= enc_chain(self.utxo_entries(), self@.blocks, self.spec_target()));
        out
    }

    /// The chain that `bytes` stand for, with an empty pool; `IoError` where they are
    /// not the encoding of a chain and nothing more, two entries of the index share a
    /// key, or the target is more than the largest target allowed.
    pub fn load(bytes: &[u8]) -> (r: Result<Blockchain, BtcError>)
        ensures
            match r {
                Ok(chain) => {
                    &&& spec_load_chain(bytes@) == Some(
                        (chain.utxo_entries(), chain@.blocks, chain.spec_target()),
                    )
                    &&& chain@.utxos == entries_map(chain.utxo_entries())
                    &&& chain@.target == chain.spec_target()@
                    &&& chain@.mempool.len() == 0
                },
                Err(e) => e == BtcError::IoError && spec_load_chain(bytes@).is_none(),
            },
    {
        reveal(dec_chain);
        let at1: usize = match get_array_of(bytes, 0, 3) {
            Some(p) => p,
            None => {
                return Err(BtcError::IoError);
            },
        };
        let (entries, at2) = match decode_entries(bytes, at1) {
            Some(found) => found,
            None => {
                return Err(BtcError::IoError);
            },
        };
        let (blocks, at3) = match decode_blocks(bytes, at2) {
            Some(found) => found,
            None => {
                return Err(BtcError::IoError);
            },
        };
        let (target, at4) = match get_u256(bytes, at3) {
            Some(found) => found,
            None => {
                return Err(BtcError::IoError);
            },
        };
        if at4 != bytes.len() {
            return Err(BtcError::IoError);
        }
        let utxos: UtxoSet = match UtxoSet::from_entries(entries) {
            Some(set) => set,
            None => {
                return Err(BtcError::IoError);
            },
        };
        let n: usize = utxos.len();
        match Blockchain::from_parts(utxos, blocks, target) {
            Some(chain) => Ok(chain),
            None => Err(BtcError::IoError),
        }
    }
}

} // verus!
