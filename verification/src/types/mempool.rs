//! The pool of transactions that wait for a block: admission with the replacement of
//! conflicting entries, the order by fee, and the eviction of old entries.

use crate::time::Timestamp;
use crate::types::block::{
    all_present, has_duplicates, input_keys, keys_of_inputs, keys_of_outputs, output_keys,
    contains_hash,
};
use crate::types::transaction::{
    output_total, sum_outputs, Transaction, TransactionInput, TransactionView,
};
use crate::types::utxo::{input_total, spec_set_reserved, sum_inputs, UtxoMap, UtxoSet};
use vstd::prelude::*;

verus! {

/// A transaction that waits for a block, with the time at which it was taken in.
pub type PoolEntry = (Timestamp, Transaction);

/// A pool entry as a mathematical value.
pub type PoolItem = (Timestamp, TransactionView);

/// The entries of a pool as mathematical values.
pub open spec fn pool_views(pool: Seq<PoolEntry>) -> Seq<PoolItem> {
    Seq::new(pool.len(), |i: int| (pool[i].0, pool[i].1@))
}

/// The miner's fee of a transaction: what its inputs bring in, less what its outputs
/// pay out. An input that refers to nothing in the index brings in nothing.
pub open spec fn spec_fee(tx: TransactionView, utxos: UtxoMap) -> int {
    input_total(tx.inputs, utxos) - output_total(tx.outputs)
}

/// Whether a transaction may enter the pool: each of its inputs refers to an unspent
/// output, no two of them to the same, and it does not pay out more than it takes in.
pub open spec fn admissible(tx: TransactionView, utxos: UtxoMap) -> bool {
    &&& forall|i: int|
        0 <= i < tx.inputs.len() ==> utxos.contains_key(
            (#[trigger] tx.inputs[i]).prev_transaction_output_hash,
        )
    &&& input_keys(tx.inputs).no_duplicates()
    &&& input_total(tx.inputs, utxos) >= output_total(tx.outputs)
}

/// The index with the reservation flag of every output that some inputs refer to set
/// to `flag`.
pub open spec fn mark_all(utxos: UtxoMap, inputs: Seq<TransactionInput>, flag: bool) -> UtxoMap
    decreases inputs.len(),
{
    if inputs.len() == 0 {
        utxos
    } else {
        spec_set_reserved(
            mark_all(utxos, inputs.drop_last(), flag),
            inputs.last().prev_transaction_output_hash,
            flag,
        )
    }
}

/// Whether a pool entry stands in the way of spending the output under `key`: it
/// creates that output or spends it itself.
pub open spec fn touches(item: PoolItem, key: crate::sha256::Hash) -> bool {
    output_keys(item.1.outputs).contains(key) || input_keys(item.1.inputs).contains(key)
}

/// The place of the first pool entry that touches `key`.
pub open spec fn first_conflict(pool: Seq<PoolItem>, key: crate::sha256::Hash) -> Option<int>
    decreases pool.len(),
{
    if pool.len() == 0 {
        None
    } else {
        match first_conflict(pool.drop_last(), key) {
            Some(i) => Some(i),
            None => if touches(pool.last(), key) {
                Some(pool.len() - 1)
            } else {
                None
            },
        }
    }
}

/// Index and pool after the conflict about one input has been settled. Where the output
/// under `key` is reserved, the first pool entry that touches it leaves the pool and
/// the outputs that it had reserved are released; where no entry touches it, the
/// output is released.
pub open spec fn resolve_conflict(utxos: UtxoMap, pool: Seq<PoolItem>, key: crate::sha256::Hash) -> (
    UtxoMap,
    Seq<PoolItem>,
) {
    if utxos.contains_key(key) && utxos[key].0 {
        match first_conflict(pool, key) {
            Some(i) => (mark_all(utxos, pool[i].1.inputs, false), pool.remove(i)),
            None => (spec_set_reserved(utxos, key, false), pool),
        }
    } else {
        (utxos, pool)
    }
}

/// Index and pool after the conflicts about some inputs have been settled, in order.
pub open spec fn resolve_conflicts(
    utxos: UtxoMap,
    pool: Seq<PoolItem>,
    inputs: Seq<TransactionInput>,
) -> (UtxoMap, Seq<PoolItem>)
    decreases inputs.len(),
{
    if inputs.len() == 0 {
        (utxos, pool)
    } else {
        let before = resolve_conflicts(utxos, pool, inputs.drop_last());
        resolve_conflict(before.0, before.1, inputs.last().prev_transaction_output_hash)
    }
}

/// Where an entry with the fee `fee` goes into a pool in ascending order of fee: behind
/// the last entry whose fee is not higher.
pub open spec fn insert_place(sorted: Seq<PoolItem>, fee: int, utxos: UtxoMap) -> int
    decreases sorted.len(),
{
    if sorted.len() == 0 {
        0
    } else if spec_fee(sorted.last().1, utxos) <= fee {
        sorted.len() as int
    } else {
        insert_place(sorted.drop_last(), fee, utxos)
    }
}

/// A pool in ascending order of fee; entries with the same fee keep their order.
pub open spec fn sort_by_fee(pool: Seq<PoolItem>, utxos: UtxoMap) -> Seq<PoolItem>
    decreases pool.len(),
{
    if pool.len() == 0 {
        pool
    } else {
        let sorted = sort_by_fee(pool.drop_last(), utxos);
        sorted.insert(insert_place(sorted, spec_fee(pool.last().1, utxos), utxos), pool.last())
    }
}

/// Whether a pool is in ascending order of fee.
pub open spec fn ascending(pool: Seq<PoolItem>, utxos: UtxoMap) -> bool {
    forall|i: int, j: int|
        0 <= i <= j < pool.len() ==> spec_fee((#[trigger] pool[i]).1, utxos) <= spec_fee(
            (#[trigger] pool[j]).1,
            utxos,
        )
}

/// Index and pool after a transaction has been taken in at the time `now`: conflicts
/// about its inputs are settled, the outputs that it spends are reserved, and it
/// stands in the pool, which is in ascending order of fee.
pub open spec fn spec_enter_pool(
    utxos: UtxoMap,
    pool: Seq<PoolItem>,
    tx: TransactionView,
    now: Timestamp,
) -> (UtxoMap, Seq<PoolItem>) {
    let settled = resolve_conflicts(utxos, pool, tx.inputs);
    let reserved = mark_all(settled.0, tx.inputs, true);
    (reserved, sort_by_fee(settled.1.push((now, tx)), reserved))
}

/// Whether a pool entry is too old at the time `now`: it was taken in more than
/// `MAX_MEMPOOL_TRANSACTION_AGE` seconds before.
pub open spec fn expired(item: PoolItem, now: Timestamp) -> bool {
    now.instant() - item.0.instant() > crate::MAX_MEMPOOL_TRANSACTION_AGE
        * crate::time::nanos_per_second()
}

/// The entries of a pool that are not too old, as a function.
pub open spec fn fresh_at(now: Timestamp) -> spec_fn(PoolItem) -> bool {
    |item: PoolItem| !expired(item, now)
}

/// The index after the outputs that the expired entries of a pool had reserved have
/// been released.
pub open spec fn release_expired(utxos: UtxoMap, pool: Seq<PoolItem>, now: Timestamp) -> UtxoMap
    decreases pool.len(),
{
    if pool.len() == 0 {
        utxos
    } else {
        let before = release_expired(utxos, pool.drop_last(), now);
        if expired(pool.last(), now) {
            mark_all(before, pool.last().1.inputs, false)
        } else {
            before
        }
    }
}

/// Marking changes no key and no output of the index, and leaves the flags of the
/// outputs that the inputs do not refer to.
pub proof fn lemma_mark_all_keeps(utxos: UtxoMap, inputs: Seq<TransactionInput>, flag: bool)
    ensures
        mark_all(utxos, inputs, flag).dom() == utxos.dom(),
        forall|key: crate::sha256::Hash|
            utxos.contains_key(key) ==> (#[trigger] mark_all(utxos, inputs, flag)[key]).1
                == utxos[key].1,
        forall|key: crate::sha256::Hash|
            utxos.contains_key(key) && !input_keys(inputs).contains(key) ==> (#[trigger] mark_all(
                utxos,
                inputs,
                flag,
            )[key]) == utxos[key],
    decreases inputs.len(),
{
    if inputs.len() > 0 {
        let before = mark_all(utxos, inputs.drop_last(), flag);
        lemma_mark_all_keeps(utxos, inputs.drop_last(), flag);
        let last = inputs.last().prev_transaction_output_hash;
        assert(mark_all(utxos, inputs, flag).dom() =~= utxos.dom());
        assert(input_keys(inputs)[inputs.len() - 1] == last);
        assert forall|key: crate::sha256::Hash|
            utxos.contains_key(key) && !input_keys(inputs).contains(key) implies (
        #[trigger] mark_all(utxos, inputs, flag)[key]) == utxos[key] by {
            if input_keys(inputs.drop_last()).contains(key) {
                let i = choose|i: int|
                    0 <= i < input_keys(inputs.drop_last()).len() && input_keys(
                        inputs.drop_last(),
                    )[i] == key;
                assert(input_keys(inputs)[i] == key);
            }
        }
    } else {
        assert(mark_all(utxos, inputs, flag).dom() =~= utxos.dom());
    }
}

/// After marking, every output that the inputs refer to and that the index holds has
/// the flag.
pub proof fn lemma_mark_all_marks(utxos: UtxoMap, inputs: Seq<TransactionInput>, flag: bool, i: int)
    requires
        0 <= i < inputs.len(),
        utxos.contains_key(inputs[i].prev_transaction_output_hash),
    ensures
        mark_all(utxos, inputs, flag).contains_key(inputs[i].prev_transaction_output_hash),
        mark_all(utxos, inputs, flag)[inputs[i].prev_transaction_output_hash].0 == flag,
    decreases inputs.len(),
{
    let before = mark_all(utxos, inputs.drop_last(), flag);
    lemma_mark_all_keeps(utxos, inputs.drop_last(), flag);
    assert(before.dom() == utxos.dom());
    let key = inputs[i].prev_transaction_output_hash;
    assert(before.contains_key(key));
    if i < inputs.len() - 1 {
        lemma_mark_all_marks(utxos, inputs.drop_last(), flag, i);
    }
}

/// A sorted pool has as many entries as the pool, the same entries, and is in ascending
/// order of fee.
pub proof fn lemma_sort_by_fee(pool: Seq<PoolItem>, utxos: UtxoMap)
    ensures
        sort_by_fee(pool, utxos).len() == pool.len(),
        sort_by_fee(pool, utxos).to_multiset() == pool.to_multiset(),
        ascending(sort_by_fee(pool, utxos), utxos),
    decreases pool.len(),
{
    if pool.len() > 0 {
        let rest = pool.drop_last();
        let sorted = sort_by_fee(rest, utxos);
        let fee = spec_fee(pool.last().1, utxos);
        let place = insert_place(sorted, fee, utxos);
        lemma_sort_by_fee(rest, utxos);
        lemma_insert_place(sorted, fee, utxos);
        sorted.insert_ensures(place, pool.last());
        vstd::seq_lib::to_multiset_insert(sorted, place, pool.last());
        vstd::seq_lib::to_multiset_build(rest, pool.last());
        assert(rest.push(pool.last()) =~= pool);
        let result = sorted.insert(place, pool.last());
        assert forall|i: int, j: int| 0 <= i <= j < result.len() implies spec_fee(
            (#[trigger] result[i]).1,
            utxos,
        ) <= spec_fee((#[trigger] result[j]).1, utxos) by {
            let i0 = if i < place { i } else { i - 1 };
            let j0 = if j < place { j } else { j - 1 };
            if i != place && j != place {
                assert(result[i] == sorted[i0]);
                assert(result[j] == sorted[j0]);
                assert(spec_fee(sorted[i0].1, utxos) <= spec_fee(sorted[j0].1, utxos));
            } else if i == place && j != place {
                assert(result[j] == sorted[j0]);
            } else if i != place && j == place {
                assert(result[i] == sorted[i0]);
            }
        }
    } else {
        assert(pool.to_multiset() =~= sort_by_fee(pool, utxos).to_multiset());
    }
}

/// The place for a fee lies within the pool; in a pool in ascending order, the entries
/// before it have fees that are not higher, those from it on have higher fees.
pub proof fn lemma_insert_place(sorted: Seq<PoolItem>, fee: int, utxos: UtxoMap)
    ensures
        0 <= insert_place(sorted, fee, utxos) <= sorted.len(),
        ascending(sorted, utxos) ==> forall|i: int|
            0 <= i < insert_place(sorted, fee, utxos) ==> spec_fee((#[trigger] sorted[i]).1, utxos)
                <= fee,
        forall|i: int|
            insert_place(sorted, fee, utxos) <= i < sorted.len() ==> spec_fee(
                (#[trigger] sorted[i]).1,
                utxos,
            ) > fee,
    decreases sorted.len(),
{
    if sorted.len() > 0 {
        lemma_insert_place(sorted.drop_last(), fee, utxos);
        if ascending(sorted, utxos) {
            assert forall|i: int, j: int| 0 <= i <= j < sorted.drop_last().len() implies spec_fee(
                (#[trigger] sorted.drop_last()[i]).1,
                utxos,
            ) <= spec_fee((#[trigger] sorted.drop_last()[j]).1, utxos) by {
                assert(sorted.drop_last()[i] == sorted[i]);
                assert(sorted.drop_last()[j] == sorted[j]);
            }
            if spec_fee(sorted.last().1, utxos) <= fee {
                assert forall|i: int| 0 <= i < sorted.len() implies spec_fee(
                    (#[trigger] sorted[i]).1,
                    utxos,
                ) <= fee by {
                    assert(spec_fee(sorted[i].1, utxos) <= spec_fee(
                        sorted[sorted.len() - 1].1,
                        utxos,
                    ));
                }
            } else {
                assert forall|i: int|
                    0 <= i < insert_place(sorted, fee, utxos) implies spec_fee(
                    (#[trigger] sorted[i]).1,
                    utxos,
                ) <= fee by {
                    assert(sorted.drop_last()[i] == sorted[i]);
                }
            }
        }
        assert forall|i: int|
            insert_place(sorted, fee, utxos) <= i < sorted.len() implies spec_fee(
            (#[trigger] sorted[i]).1,
            utxos,
        ) > fee by {
            if i < sorted.len() - 1 {
                assert(sorted.drop_last()[i] == sorted[i]);
            }
        }
    }
}

/// Settling the conflict about an input changes no key and no output of the index.
pub proof fn lemma_resolve_conflict_keeps(
    utxos: UtxoMap,
    pool: Seq<PoolItem>,
    key: crate::sha256::Hash,
)
    ensures
        resolve_conflict(utxos, pool, key).0.dom() == utxos.dom(),
        forall|k: crate::sha256::Hash|
            utxos.contains_key(k) ==> (#[trigger] resolve_conflict(utxos, pool, key).0[k]).1
                == utxos[k].1,
{
    if utxos.contains_key(key) && utxos[key].0 {
        match first_conflict(pool, key) {
            Some(i) => {
                lemma_mark_all_keeps(utxos, pool[i].1.inputs, false);
            },
            None => {
                assert(spec_set_reserved(utxos, key, false).dom() =~= utxos.dom());
            },
        }
    }
}

/// Settling the conflicts about some inputs changes no key and no output of the index.
pub proof fn lemma_resolve_conflicts_keep(
    utxos: UtxoMap,
    pool: Seq<PoolItem>,
    inputs: Seq<TransactionInput>,
)
    ensures
        resolve_conflicts(utxos, pool, inputs).0.dom() == utxos.dom(),
        forall|k: crate::sha256::Hash|
            utxos.contains_key(k) ==> (#[trigger] resolve_conflicts(utxos, pool, inputs).0[k]).1
                == utxos[k].1,
    decreases inputs.len(),
{
    if inputs.len() > 0 {
        let before = resolve_conflicts(utxos, pool, inputs.drop_last());
        lemma_resolve_conflicts_keep(utxos, pool, inputs.drop_last());
        lemma_resolve_conflict_keeps(
            before.0,
            before.1,
            inputs.last().prev_transaction_output_hash,
        );
        assert forall|k: crate::sha256::Hash| utxos.contains_key(k) implies (
        #[trigger] resolve_conflicts(utxos, pool, inputs).0[k]).1 == utxos[k].1 by {
            assert(before.0.contains_key(k));
            assert(before.0[k].1 == utxos[k].1);
        }
    }
}

/// After a transaction that may enter the pool has been taken in: the index has the
/// keys and outputs that it had; every output that the transaction spends is
/// reserved; the transaction stands in the pool; and the pool is in ascending order
/// of fee.
pub proof fn lemma_enter_pool(utxos: UtxoMap, pool: Seq<PoolItem>, tx: TransactionView, now: Timestamp)
    requires
        forall|i: int|
            0 <= i < tx.inputs.len() ==> utxos.contains_key(
                (#[trigger] tx.inputs[i]).prev_transaction_output_hash,
            ),
    ensures
        spec_enter_pool(utxos, pool, tx, now).0.dom() == utxos.dom(),
        forall|k: crate::sha256::Hash|
            utxos.contains_key(k) ==> (#[trigger] spec_enter_pool(utxos, pool, tx, now).0[k]).1
                == utxos[k].1,
        forall|i: int|
            0 <= i < tx.inputs.len() ==> {
                &&& spec_enter_pool(utxos, pool, tx, now).0.contains_key(
                    (#[trigger] tx.inputs[i]).prev_transaction_output_hash,
                )
                &&& spec_enter_pool(
                    utxos,
                    pool,
                    tx,
                    now,
                ).0[tx.inputs[i].prev_transaction_output_hash].0
            },
        spec_enter_pool(utxos, pool, tx, now).1.contains((now, tx)),
        ascending(spec_enter_pool(utxos, pool, tx, now).1, spec_enter_pool(utxos, pool, tx, now).0),
{
    let settled = resolve_conflicts(utxos, pool, tx.inputs);
    let reserved = mark_all(settled.0, tx.inputs, true);
    lemma_resolve_conflicts_keep(utxos, pool, tx.inputs);
    lemma_mark_all_keeps(settled.0, tx.inputs, true);
    assert forall|k: crate::sha256::Hash| utxos.contains_key(k) implies (#[trigger] reserved[k]).1
        == utxos[k].1 by {
        assert(settled.0.contains_key(k));
        assert(settled.0[k].1 == utxos[k].1);
    }
    assert forall|i: int| 0 <= i < tx.inputs.len() implies {
        &&& reserved.contains_key((#[trigger] tx.inputs[i]).prev_transaction_output_hash)
        &&& reserved[tx.inputs[i].prev_transaction_output_hash].0
    } by {
        assert(settled.0.contains_key(tx.inputs[i].prev_transaction_output_hash));
        lemma_mark_all_marks(settled.0, tx.inputs, true, i);
    }
    let pushed = settled.1.push((now, tx));
    lemma_sort_by_fee(pushed, reserved);
    let sorted = sort_by_fee(pushed, reserved);
    assert(pushed[pushed.len() - 1] == (now, tx));
    assert(pushed.contains((now, tx)));
    pushed.to_multiset_ensures();
    sorted.to_multiset_ensures();
    assert(pushed.to_multiset().count((now, tx)) > 0);
    assert(sorted.to_multiset().count((now, tx)) > 0);
    assert(sorted.contains((now, tx)));
}

/// A fee: what a transaction takes in and what it pays out.
#[derive(Clone, Copy, Debug, PartialEq, Eq, Structural)]
pub struct Fee {
    pub taken: u128,
    pub paid: u128,
}

impl Fee {
    /// The fee as a number; negative where more is paid out than taken in.
    pub open spec fn value(self) -> int {
        self.taken - self.paid
    }

    /// Whether this fee is at most the other.
    pub fn le(&self, other: &Fee) -> (r: bool)
        ensures
            r == (self.value() <= other.value()),
    {
        if self.taken >= self.paid {
            if other.taken >= other.paid {
                self.taken - self.paid <= other.taken - other.paid
            } else {
                false
            }
        } else {
            if other.taken >= other.paid {
                true
            } else {
                self.paid - self.taken >= other.paid - other.taken
            }
        }
    }
}

/// The miner's fee of a transaction.
pub fn fee_of(tx: &Transaction, utxos: &UtxoSet) -> (fee: Fee)
    ensures
        fee.value() == spec_fee(tx@, utxos@),
{
    Fee { taken: sum_inputs(&tx.inputs, utxos), paid: sum_outputs(&tx.outputs) }
}

/// Whether a transaction may enter the pool.
pub fn is_admissible(tx: &Transaction, utxos: &UtxoSet) -> (r: bool)
    ensures
        r == admissible(tx@, utxos@),
{
    if !all_present(&tx.inputs, utxos) {
        return false;
    }
    let keys: Vec<crate::sha256::Hash> = keys_of_inputs(&tx.inputs);
    if has_duplicates(&keys) {
        return false;
    }
    sum_inputs(&tx.inputs, utxos) >= sum_outputs(&tx.outputs)
}

/// Sets the reservation flag of every output that some inputs refer to.
pub fn mark_inputs(utxos: &mut UtxoSet, inputs: &Vec<TransactionInput>, flag: bool)
    ensures
        final(utxos)@ == mark_all(old(utxos)@, inputs@, flag),
{
    let mut i: usize = 0;
    while i < inputs.len()
        invariant
            0 <= i <= inputs.len(),
            utxos@ == mark_all(old(utxos)@, inputs@.take(i as int), flag),
        decreases inputs.len() - i,
    {
        utxos.set_reserved(&inputs[i].prev_transaction_output_hash, flag);
        assert(inputs@.take(i + 1).drop_last() =~= inputs@.take(i as int));
        i += 1;
    }
    assert(inputs@.take(i as int) =~= inputs@);
}

/// Whether a transaction touches the output under `key`.
fn transaction_touches(tx: &Transaction, key: &crate::sha256::Hash) -> (r: bool)
    ensures
        forall|when: Timestamp| r == touches((when, tx@), *key),
{
    let made: Vec<crate::sha256::Hash> = keys_of_outputs(&tx.outputs);
    if contains_hash(&made, key) {
        return true;
    }
    let spent: Vec<crate::sha256::Hash> = keys_of_inputs(&tx.inputs);
    contains_hash(&spent, key)
}

/// A conflict found in a part of the pool is the first conflict of the pool.
pub proof fn lemma_first_conflict_stays(pool: Seq<PoolItem>, k: int, key: crate::sha256::Hash)
    requires
        0 <= k <= pool.len(),
        first_conflict(pool.take(k), key).is_some(),
    ensures
        first_conflict(pool, key) == first_conflict(pool.take(k), key),
    decreases pool.len() - k,
{
    if k < pool.len() {
        assert(pool.take(k + 1).drop_last() =~= pool.take(k));
        lemma_first_conflict_stays(pool, k + 1, key);
    } else {
        assert(pool.take(k) =~= pool);
    }
}

/// The place of the first pool entry that touches the output under `key`.
fn find_conflict(pool: &Vec<PoolEntry>, key: &crate::sha256::Hash) -> (r: Option<usize>)
    ensures
        match r {
            Some(i) => i < pool@.len() && first_conflict(pool_views(pool@), *key) == Some(i as int),
            None => first_conflict(pool_views(pool@), *key).is_none(),
        },
{
    let ghost all = pool_views(pool@);
    let mut i: usize = 0;
    while i < pool.len()
        invariant
            0 <= i <= pool.len(),
            all == pool_views(pool@),
            first_conflict(all.take(i as int), *key).is_none(),
        decreases pool.len() - i,
    {
        proof {
            assert(all.take(i + 1).drop_last() =~= all.take(i as int));
            assert(all.take(i + 1).last() == (pool@[i as int].0, pool@[i as int].1@));
        }
        if transaction_touches(&pool[i].1, key) {
            proof {
                lemma_first_conflict_stays(all, i + 1, *key);
            }
            return Some(i);
        }
        i += 1;
    }
    assert(all.take(i as int) =~= all);
    None
}

/// Settles the conflict about one input.
fn resolve_one(utxos: &mut UtxoSet, pool: &mut Vec<PoolEntry>, key: &crate::sha256::Hash)
    ensures
        (final(utxos)@, pool_views(final(pool)@)) == resolve_conflict(
            old(utxos)@,
            pool_views(old(pool)@),
            *key,
        ),
{
    let reserved: bool = match utxos.get(key) {
        Some(found) => found.0,
        None => false,
    };
    if !reserved {
        return ;
    }
    match find_conflict(pool, key) {
        Some(i) => {
            mark_inputs(utxos, &pool[i].1.inputs, false);
            let ghost before = pool_views(pool@);
            pool.remove(i);
            assert(pool_views(pool@) =~= before.remove(i as int));
        },
        None => {
            utxos.set_reserved(key, false);
        },
    }
}

/// Settles the conflicts about some inputs, in order.
fn resolve_all(utxos: &mut UtxoSet, pool: &mut Vec<PoolEntry>, inputs: &Vec<TransactionInput>)
    ensures
        (final(utxos)@, pool_views(final(pool)@)) == resolve_conflicts(
            old(utxos)@,
            pool_views(old(pool)@),
            inputs@,
        ),
{
    let mut i: usize = 0;
    while i < inputs.len()
        invariant
            0 <= i <= inputs.len(),
            (utxos@, pool_views(pool@)) == resolve_conflicts(
                old(utxos)@,
                pool_views(old(pool)@),
                inputs@.take(i as int),
            ),
        decreases inputs.len() - i,
    {
        resolve_one(utxos, pool, &inputs[i].prev_transaction_output_hash);
        assert(inputs@.take(i + 1).drop_last() =~= inputs@.take(i as int));
        i += 1;
    }
    assert(inputs@.take(i as int) =~= inputs@);
}

/// Where an entry with the fee `fee` goes into a pool.
fn find_place(sorted: &Vec<PoolEntry>, fee: &Fee, utxos: &UtxoSet) -> (place: usize)
    ensures
        place == insert_place(pool_views(sorted@), fee.value(), utxos@),
        place <= sorted@.len(),
{
    let ghost all = pool_views(sorted@);
    let mut place: usize = sorted.len();
    assert(all.take(place as int) =~= all);
    while place > 0
        invariant
            0 <= place <= sorted.len(),
            all == pool_views(sorted@),
            insert_place(all, fee.value(), utxos@) == insert_place(
                all.take(place as int),
                fee.value(),
                utxos@,
            ),
        decreases place,
    {
        let other: Fee = fee_of(&sorted[place - 1].1, utxos);
        proof {
            assert(all.take(place as int).drop_last() =~= all.take(place - 1));
            assert(all.take(place as int).last() == (
                sorted@[place - 1].0,
                sorted@[place - 1].1@,
            ));
        }
        if other.le(fee) {
            return place;
        }
        place -= 1;
    }
    place
}

/// The pool in ascending order of fee.
pub fn sort_pool(pool: &Vec<PoolEntry>, utxos: &UtxoSet) -> (sorted: Vec<PoolEntry>)
    ensures
        pool_views(sorted@) == sort_by_fee(pool_views(pool@), utxos@),
{
    let ghost all = pool_views(pool@);
    let mut sorted: Vec<PoolEntry> = Vec::new();
    let mut i: usize = 0;
    assert(pool_views(sorted@) =~= sort_by_fee(all.take(0), utxos@));
    while i < pool.len()
        invariant
            0 <= i <= pool.len(),
            all == pool_views(pool@),
            pool_views(sorted@) == sort_by_fee(all.take(i as int), utxos@),
        decreases pool.len() - i,
    {
        let fee: Fee = fee_of(&pool[i].1, utxos);
        let place: usize = find_place(&sorted, &fee, utxos);
        let ghost before = pool_views(sorted@);
        let copy: Transaction = pool[i].1.clone();
        sorted.insert(place, (pool[i].0, copy));
        proof {
            assert(all.take(i + 1).drop_last() =~= all.take(i as int));
            assert(all.take(i + 1).last() == all[i as int]);
            assert(pool_views(sorted@) =~= before.insert(place as int, all[i as int]));
        }
        i += 1;
    }
    assert(all.take(i as int) =~= all);
    sorted
}

/// Takes a transaction that may enter the pool into it, at the time `now`.
pub fn enter_pool(utxos: &mut UtxoSet, pool: &mut Vec<PoolEntry>, transaction: Transaction, now: Timestamp)
    ensures
        (final(utxos)@, pool_views(final(pool)@)) == spec_enter_pool(
            old(utxos)@,
            pool_views(old(pool)@),
            transaction@,
            now,
        ),
{
    resolve_all(utxos, pool, &transaction.inputs);
    mark_inputs(utxos, &transaction.inputs, true);
    let ghost before = pool_views(pool@);
    let ghost tx = transaction@;
    pool.push((now, transaction));
    assert(pool_views(pool@) =~= before.push((now, tx)));
    let sorted: Vec<PoolEntry> = sort_pool(pool, utxos);
    *pool = sorted;
}

/// Evicts the entries that are too old at the time `now` and releases the outputs that
/// they had reserved.
pub fn evict(utxos: &mut UtxoSet, pool: &mut Vec<PoolEntry>, now: Timestamp)
    ensures
        final(utxos)@ == release_expired(old(utxos)@, pool_views(old(pool)@), now),
        pool_views(final(pool)@) == pool_views(old(pool)@).filter(fresh_at(now)),
{
    let ghost all = pool_views(pool@);
    let ghost pred = fresh_at(now);
    let limit: i128 = (crate::MAX_MEMPOOL_TRANSACTION_AGE as i128) * 1_000_000_000;
    let mut kept: Vec<PoolEntry> = Vec::new();
    let mut i: usize = 0;
    proof {
        reveal(Seq::filter);
        assert(pool_views(kept@) =~= all.take(0).filter(pred));
    }
    while i < pool.len()
        invariant
            0 <= i <= pool.len(),
            all == pool_views(pool@),
            pool@ == old(pool)@,
            pred == fresh_at(now),
            limit == crate::MAX_MEMPOOL_TRANSACTION_AGE * crate::time::nanos_per_second(),
            utxos@ == release_expired(old(utxos)@, all.take(i as int), now),
            pool_views(kept@) == all.take(i as int).filter(pred),
        decreases pool.len() - i,
    {
        proof {
            reveal(Seq::filter);
            assert(all.take(i + 1).drop_last() =~= all.take(i as int));
            assert(all.take(i + 1).last() == all[i as int]);
        }
        if now.nanos_since(&pool[i].0) > limit {
            mark_inputs(utxos, &pool[i].1.inputs, false);
        } else {
            let ghost before = pool_views(kept@);
            let copy: Transaction = pool[i].1.clone();
            kept.push((pool[i].0, copy));
            assert(pool_views(kept@) =~= before.push(all[i as int]));
        }
        i += 1;
    }
    assert(all.take(i as int) =~= all);
    *pool = kept;
}

} // verus!
