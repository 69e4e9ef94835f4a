use lib::crypto::{PrivateKey, PublicKey, Signature};
use lib::error::BtcError;
use lib::sha256;
use lib::time::Timestamp;
use lib::types::mempool::{fee_of, sort_pool, Fee};
use lib::types::{
    Block, BlockHeader, Blockchain, Transaction, TransactionInput, TransactionOutput, UtxoSet,
};
use lib::utils::MerkleRoot;

const COIN: u64 = 100_000_000;
const START: i64 = 1_700_000_000;

fn key_pair() -> (PrivateKey, PublicKey) {
    let key = PrivateKey::new_key();
    let public = key.public_key().expect("a fresh key is valid");
    (key, public)
}

fn output(value: u64, id: u128, pubkey: PublicKey) -> TransactionOutput {
    TransactionOutput { value, unique_id: id, pubkey }
}

fn spend(spent: &TransactionOutput, key: &PrivateKey) -> TransactionInput {
    TransactionInput {
        prev_transaction_output_hash: spent.hash(),
        signature: Signature::sign_output(&spent.hash(), key).unwrap(),
    }
}

fn chain_with(values: &[u64], pubkey: PublicKey) -> (Blockchain, Vec<TransactionOutput>) {
    let outputs: Vec<TransactionOutput> =
        values.iter().enumerate().map(|(i, v)| output(*v, i as u128, pubkey)).collect();
    let transactions = vec![Transaction::new(vec![], outputs.clone())];
    let block = Block::new(
        BlockHeader::new(
            Timestamp::new(START, 0),
            0,
            sha256::Hash::zero(),
            MerkleRoot::calculate(&transactions),
            lib::min_target(),
        ),
        transactions,
    );
    let mut chain = Blockchain::from_parts(UtxoSet::new(), vec![block], lib::min_target())
        .expect("the target is allowed");
    chain.rebuild_utxos();
    (chain, outputs)
}

fn paying(spent: &TransactionOutput, key: &PrivateKey, fee: u64, id: u128) -> Transaction {
    Transaction::new(vec![spend(spent, key)], vec![output(spent.value - fee, id, spent.pubkey)])
}

fn reserved(chain: &Blockchain, o: &TransactionOutput) -> bool {
    chain.utxos().get(&o.hash()).expect("the output is unspent").0
}

#[test]
fn the_pool_is_kept_in_ascending_order_of_fee() {
    let (key, public) = key_pair();
    let (mut chain, outs) = chain_with(&[10 * COIN, 15 * COIN, 25 * COIN], public);
    let ten = paying(&outs[0], &key, 10, 100);
    let thirty = paying(&outs[1], &key, 30, 101);
    let twenty = paying(&outs[2], &key, 20, 102);
    assert_eq!(chain.add_to_mempool(ten.clone()), Ok(()));
    assert_eq!(chain.add_to_mempool(thirty.clone()), Ok(()));
    assert_eq!(chain.add_to_mempool(twenty.clone()), Ok(()));
    let order: Vec<&Transaction> = chain.mempool().iter().map(|e| &e.1).collect();
    assert_eq!(order, vec![&ten, &twenty, &thirty]);
    let fees: Vec<Fee> = chain.mempool().iter().map(|e| fee_of(&e.1, chain.utxos())).collect();
    assert_eq!(
        fees,
        vec![
            Fee { taken: 10 * COIN as u128, paid: (10 * COIN - 10) as u128 },
            Fee { taken: 25 * COIN as u128, paid: (25 * COIN - 20) as u128 },
            Fee { taken: 15 * COIN as u128, paid: (15 * COIN - 30) as u128 },
        ]
    );
}

#[test]
fn entries_with_the_same_fee_keep_their_order() {
    let (key, public) = key_pair();
    let (mut chain, outs) = chain_with(&[10 * COIN, 10 * COIN, 10 * COIN, 20 * COIN], public);
    let first = paying(&outs[0], &key, 5, 100);
    let second = paying(&outs[1], &key, 5, 101);
    let third = paying(&outs[2], &key, 5, 102);
    let cheap = paying(&outs[3], &key, 1, 103);
    for tx in [&first, &second, &third, &cheap] {
        chain.add_to_mempool_at(tx.clone(), Timestamp::new(START, 0)).unwrap();
    }
    let order: Vec<&Transaction> = chain.mempool().iter().map(|e| &e.1).collect();
    assert_eq!(order, vec![&cheap, &first, &second, &third]);
}

#[test]
fn what_a_transaction_spends_is_reserved_once_it_is_in_the_pool() {
    let (key, public) = key_pair();
    let (mut chain, outs) = chain_with(&[10 * COIN, 15 * COIN, 25 * COIN], public);
    let tx = Transaction::new(
        vec![spend(&outs[0], &key), spend(&outs[2], &key)],
        vec![output(35 * COIN, 100, public)],
    );
    assert!(!reserved(&chain, &outs[0]));
    assert_eq!(chain.add_to_mempool(tx.clone()), Ok(()));
    for input in tx.inputs.iter() {
        let held = chain.utxos().get(&input.prev_transaction_output_hash);
        assert_eq!(held.map(|h| h.0), Some(true));
    }
    assert!(reserved(&chain, &outs[0]));
    assert!(!reserved(&chain, &outs[1]));
    assert!(reserved(&chain, &outs[2]));
    assert_eq!(chain.utxos().get(&outs[0].hash()), Some((true, outs[0])));
    assert_eq!(chain.utxos().len(), 3);
    assert_eq!(chain.mempool().len(), 1);
    assert_eq!(chain.mempool()[0].1, tx);
}

#[test]
fn the_time_of_entry_is_kept() {
    let (key, public) = key_pair();
    let (mut chain, outs) = chain_with(&[10 * COIN], public);
    let now = Timestamp::new(START + 7, 123);
    chain.add_to_mempool_at(paying(&outs[0], &key, 10, 100), now).unwrap();
    assert_eq!(chain.mempool()[0].0, now);
    let (mut other, outs) = chain_with(&[10 * COIN], public);
    let before = Timestamp::now();
    other.add_to_mempool(paying(&outs[0], &key, 10, 100)).unwrap();
    assert!(!before.is_after(&other.mempool()[0].0));
}

#[test]
fn a_transaction_that_spends_what_is_not_there_is_invalid() {
    let (key, public) = key_pair();
    let (mut chain, outs) = chain_with(&[10 * COIN], public);
    let stranger = output(10 * COIN, 55, public);
    let before = chain.save();
    assert_eq!(
        chain.add_to_mempool(paying(&stranger, &key, 10, 100)),
        Err(BtcError::InvalidTransaction)
    );
    let mixed = Transaction::new(
        vec![spend(&outs[0], &key), spend(&stranger, &key)],
        vec![output(COIN, 100, public)],
    );
    assert_eq!(chain.add_to_mempool(mixed), Err(BtcError::InvalidTransaction));
    assert_eq!(chain.save(), before);
    assert!(chain.mempool().is_empty());
    assert!(!reserved(&chain, &outs[0]));
}

#[test]
fn a_transaction_that_spends_an_output_twice_is_invalid() {
    let (key, public) = key_pair();
    let (mut chain, outs) = chain_with(&[10 * COIN], public);
    let twice = Transaction::new(
        vec![spend(&outs[0], &key), spend(&outs[0], &key)],
        vec![output(COIN, 100, public)],
    );
    assert_eq!(chain.add_to_mempool(twice), Err(BtcError::InvalidTransaction));
    assert!(chain.mempool().is_empty());
    assert!(!reserved(&chain, &outs[0]));
}

#[test]
fn a_transaction_that_pays_out_more_than_it_takes_in_is_invalid() {
    let (key, public) = key_pair();
    let (mut chain, outs) = chain_with(&[10 * COIN, 5 * COIN], public);
    let first = paying(&outs[0], &key, 10, 100);
    chain.add_to_mempool(first.clone()).unwrap();
    let before = chain.save();
    let greedy = Transaction::new(
        vec![spend(&outs[0], &key), spend(&outs[1], &key)],
        vec![output(15 * COIN + 1, 101, public)],
    );
    assert_eq!(chain.add_to_mempool(greedy), Err(BtcError::InvalidTransaction));
    assert_eq!(chain.save(), before);
    assert_eq!(chain.mempool().len(), 1);
    assert_eq!(chain.mempool()[0].1, first);
    assert!(reserved(&chain, &outs[0]));
    assert!(!reserved(&chain, &outs[1]));
    let exact = Transaction::new(
        vec![spend(&outs[1], &key)],
        vec![output(5 * COIN, 102, public)],
    );
    assert_eq!(chain.add_to_mempool(exact), Ok(()));
}

#[test]
fn a_transaction_without_inputs_and_outputs_enters_the_pool() {
    let (_, public) = key_pair();
    let (mut chain, _) = chain_with(&[10 * COIN], public);
    assert_eq!(chain.add_to_mempool(Transaction::new(vec![], vec![])), Ok(()));
    assert_eq!(chain.mempool().len(), 1);
    assert_eq!(
        chain.add_to_mempool(Transaction::new(vec![], vec![output(1, 9, public)])),
        Err(BtcError::InvalidTransaction)
    );
}

#[test]
fn a_transaction_takes_the_place_of_one_that_spends_the_same_output() {
    let (key, public) = key_pair();
    let (mut chain, outs) = chain_with(&[10 * COIN, 15 * COIN, 25 * COIN], public);
    let first = Transaction::new(
        vec![spend(&outs[0], &key), spend(&outs[1], &key)],
        vec![output(25 * COIN - 5, 100, public)],
    );
    let bystander = paying(&outs[2], &key, 50, 101);
    chain.add_to_mempool(first.clone()).unwrap();
    chain.add_to_mempool(bystander.clone()).unwrap();
    assert!(reserved(&chain, &outs[0]));
    assert!(reserved(&chain, &outs[1]));
    let second = paying(&outs[0], &key, 70, 102);
    assert_eq!(chain.add_to_mempool(second.clone()), Ok(()));
    let order: Vec<&Transaction> = chain.mempool().iter().map(|e| &e.1).collect();
    assert_eq!(order, vec![&bystander, &second]);
    assert!(reserved(&chain, &outs[0]));
    assert!(!reserved(&chain, &outs[1]));
    assert!(reserved(&chain, &outs[2]));
}

#[test]
fn a_reservation_that_no_entry_holds_is_dropped() {
    let (key, public) = key_pair();
    let coin = output(10 * COIN, 1, public);
    let mut utxos = UtxoSet::new();
    utxos.insert(coin.hash(), true, coin);
    let mut chain = Blockchain::from_parts(utxos, vec![], lib::min_target()).unwrap();
    let tx = paying(&coin, &key, 10, 100);
    assert_eq!(chain.add_to_mempool(tx.clone()), Ok(()));
    assert_eq!(chain.mempool().len(), 1);
    assert!(reserved(&chain, &coin));
}

#[test]
fn a_transaction_takes_the_place_of_one_that_creates_what_it_spends() {
    let (key, public) = key_pair();
    let (mut chain, outs) = chain_with(&[10 * COIN, 10 * COIN + 1], public);
    let maker = Transaction::new(vec![spend(&outs[1], &key)], vec![outs[0]]);
    chain.add_to_mempool(maker.clone()).unwrap();
    let first = paying(&outs[0], &key, 10, 100);
    chain.add_to_mempool(first.clone()).unwrap();
    let order: Vec<&Transaction> = chain.mempool().iter().map(|e| &e.1).collect();
    assert_eq!(order, vec![&maker, &first]);
    assert!(reserved(&chain, &outs[1]));
    let second = paying(&outs[0], &key, 20, 101);
    chain.add_to_mempool(second.clone()).unwrap();
    let order: Vec<&Transaction> = chain.mempool().iter().map(|e| &e.1).collect();
    assert_eq!(order, vec![&first, &second]);
    assert!(reserved(&chain, &outs[0]));
    assert!(!reserved(&chain, &outs[1]));
}

#[test]
fn old_entries_are_evicted_and_what_they_reserved_is_released() {
    let (key, public) = key_pair();
    let (mut chain, outs) = chain_with(&[10 * COIN, 15 * COIN, 25 * COIN], public);
    let old = paying(&outs[0], &key, 10, 100);
    let young = paying(&outs[1], &key, 20, 101);
    chain.add_to_mempool_at(old.clone(), Timestamp::new(START, 0)).unwrap();
    chain.add_to_mempool_at(young.clone(), Timestamp::new(START + 10, 0)).unwrap();
    chain.cleanup_mempool_at(Timestamp::new(START + 600, 0));
    assert_eq!(chain.mempool().len(), 2);
    chain.cleanup_mempool_at(Timestamp::new(START + 600, 1));
    assert_eq!(chain.mempool().len(), 1);
    assert_eq!(chain.mempool()[0].1, young);
    assert!(!reserved(&chain, &outs[0]));
    assert!(reserved(&chain, &outs[1]));
    assert!(!reserved(&chain, &outs[2]));
    chain.cleanup_mempool_at(Timestamp::new(START - 1000, 0));
    assert_eq!(chain.mempool().len(), 1);
    chain.cleanup_mempool_at(Timestamp::new(START + 611, 0));
    assert!(chain.mempool().is_empty());
    assert!(!reserved(&chain, &outs[1]));
    assert_eq!(chain.utxos().len(), 3);
}

#[test]
fn entries_of_this_moment_are_not_evicted() {
    let (key, public) = key_pair();
    let (mut chain, outs) = chain_with(&[10 * COIN], public);
    chain.add_to_mempool(paying(&outs[0], &key, 10, 100)).unwrap();
    chain.cleanup_mempool();
    assert_eq!(chain.mempool().len(), 1);
    assert!(reserved(&chain, &outs[0]));
}

#[test]
fn fees_are_compared_as_numbers() {
    let fee = |taken: u128, paid: u128| Fee { taken, paid };
    assert!(fee(10, 5).le(&fee(20, 15)));
    assert!(fee(10, 5).le(&fee(20, 14)));
    assert!(!fee(10, 4).le(&fee(20, 15)));
    assert!(fee(5, 10).le(&fee(0, 0)));
    assert!(!fee(0, 0).le(&fee(5, 10)));
    assert!(fee(5, 10).le(&fee(5, 9)));
    assert!(!fee(5, 9).le(&fee(5, 10)));
    assert!(fee(0, u128::MAX).le(&fee(u128::MAX, 0)));
    assert!(!fee(u128::MAX, 0).le(&fee(0, u128::MAX)));
    assert!(fee(u128::MAX, 0).le(&fee(u128::MAX, 0)));
}

#[test]
fn an_input_that_refers_to_nothing_brings_in_nothing() {
    let (key, public) = key_pair();
    let (chain, outs) = chain_with(&[10 * COIN], public);
    let stranger = output(3 * COIN, 55, public);
    let tx = Transaction::new(
        vec![spend(&outs[0], &key), spend(&stranger, &key)],
        vec![output(12 * COIN, 100, public)],
    );
    assert_eq!(
        fee_of(&tx, chain.utxos()),
        Fee { taken: 10 * COIN as u128, paid: 12 * COIN as u128 }
    );
}

#[test]
fn a_pool_is_sorted_by_fee() {
    let (key, public) = key_pair();
    let (chain, outs) = chain_with(&[100, 200, 300, 400, 500], public);
    let fees = [40u64, 10, 30, 10, 20];
    let pool: Vec<(Timestamp, Transaction)> = (0..5)
        .map(|i| (Timestamp::new(START + i as i64, 0), paying(&outs[i], &key, fees[i], 100 + i as u128)))
        .collect();
    let sorted = sort_pool(&pool, chain.utxos());
    let expected: Vec<(Timestamp, Transaction)> =
        [1usize, 3, 4, 2, 0].iter().map(|i| pool[*i].clone()).collect();
    assert_eq!(sorted, expected);
    assert_eq!(sort_pool(&sorted, chain.utxos()), expected);
    assert_eq!(sort_pool(&Vec::new(), chain.utxos()), Vec::new());
}
