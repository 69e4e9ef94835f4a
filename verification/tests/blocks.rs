use lib::crypto::{PrivateKey, PublicKey, Signature};
use lib::error::BtcError;
use lib::sha256;
use lib::time::Timestamp;
use lib::types::block::block_reward;
use lib::types::{Block, BlockHeader, Transaction, TransactionInput, TransactionOutput, UtxoSet};
use lib::u256::U256;
use lib::utils::MerkleRoot;

const COIN: u64 = 100_000_000;

fn key_pair() -> (PrivateKey, PublicKey) {
    let key = PrivateKey::new_key();
    let public = key.public_key().expect("a fresh key is valid");
    (key, public)
}

fn output(value: u64, id: u128, pubkey: PublicKey) -> TransactionOutput {
    TransactionOutput { value, unique_id: id, pubkey }
}

fn spend(spent: &TransactionOutput, key: &PrivateKey) -> TransactionInput {
    TransactionInput {
        prev_transaction_output_hash: spent.hash(),
        signature: Signature::sign_output(&spent.hash(), key).unwrap(),
    }
}

fn index_of(outputs: &[TransactionOutput]) -> UtxoSet {
    let mut utxos = UtxoSet::new();
    for o in outputs {
        utxos.insert(o.hash(), false, *o);
    }
    utxos
}

fn block_of(transactions: Vec<Transaction>) -> Block {
    Block::new(
        BlockHeader::new(
            Timestamp::new(1_700_000_000, 0),
            0,
            sha256::Hash::zero(),
            MerkleRoot::calculate(&transactions),
            lib::min_target(),
        ),
        transactions,
    )
}

fn header_with(target: U256, nonce: u64) -> BlockHeader {
    BlockHeader::new(
        Timestamp::new(1_700_000_000, 0),
        nonce,
        sha256::Hash::zero(),
        MerkleRoot { hash: sha256::Hash::zero() },
        target,
    )
}

#[test]
fn the_reward_halves_every_210_blocks() {
    assert_eq!(block_reward(0), 50 * COIN);
    assert_eq!(block_reward(209), 50 * COIN);
    assert_eq!(block_reward(210), 25 * COIN);
    assert_eq!(block_reward(419), 25 * COIN);
    assert_eq!(block_reward(420), 1_250_000_000);
    assert_eq!(block_reward(210 * 9), 9_765_625);
    assert_eq!(block_reward(210 * 10), 4_882_812);
    assert_eq!(block_reward(210 * 32), 1);
    assert_eq!(block_reward(210 * 33), 0);
    assert_eq!(block_reward(210 * 63), 0);
    assert_eq!(block_reward(210 * 64), 0);
    assert_eq!(block_reward(210 * 65), 0);
    assert_eq!(block_reward(u64::MAX), 0);
}

#[test]
fn a_block_with_a_lone_coinbase_is_in_order() {
    let (_, public) = key_pair();
    let block = block_of(vec![Transaction::new(vec![], vec![output(50 * COIN, 1, public)])]);
    let utxos = UtxoSet::new();
    assert_eq!(block.calculate_miner_fees(&utxos), Ok(0));
    assert_eq!(block.verify_coinbase_transaction(0, &utxos), Ok(()));
    assert_eq!(block.verify_transactions(0, &utxos), Ok(()));
    assert_eq!(block.verify_transactions(209, &utxos), Ok(()));
    assert_eq!(block.verify_transactions(210, &utxos), Err(BtcError::InvalidTransaction));
}

#[test]
fn a_block_without_transactions_is_invalid() {
    let block = block_of(vec![]);
    let utxos = UtxoSet::new();
    assert_eq!(block.verify_transactions(0, &utxos), Err(BtcError::InvalidTransaction));
    assert_eq!(block.verify_coinbase_transaction(0, &utxos), Err(BtcError::InvalidTransaction));
    assert_eq!(block.calculate_miner_fees(&utxos), Ok(0));
}

#[test]
fn a_coinbase_must_have_outputs_and_no_inputs() {
    let (key, public) = key_pair();
    let old = output(10, 1, public);
    let utxos = index_of(&[old]);
    let empty = block_of(vec![Transaction::new(vec![], vec![])]);
    assert_eq!(empty.verify_coinbase_transaction(0, &utxos), Err(BtcError::InvalidTransaction));
    let spending = block_of(vec![Transaction::new(
        vec![spend(&old, &key)],
        vec![output(50 * COIN, 2, public)],
    )]);
    assert_eq!(spending.verify_coinbase_transaction(0, &utxos), Err(BtcError::InvalidTransaction));
    assert_eq!(spending.verify_transactions(0, &utxos), Err(BtcError::InvalidTransaction));
}

#[test]
fn the_coinbase_pays_the_reward_and_the_fees_exactly() {
    let (key, public) = key_pair();
    let a = output(1000, 1, public);
    let b = output(500, 2, public);
    let utxos = index_of(&[a, b]);
    let spending = vec![
        Transaction::new(vec![spend(&a, &key)], vec![output(900, 3, public)]),
        Transaction::new(vec![spend(&b, &key)], vec![output(300, 4, public), output(150, 5, public)]),
    ];
    let with_coinbase = |paid: u64| {
        let mut txs = vec![Transaction::new(vec![], vec![output(paid, 6, public)])];
        txs.extend(spending.iter().cloned());
        block_of(txs)
    };
    let right = with_coinbase(50 * COIN + 150);
    assert_eq!(right.calculate_miner_fees(&utxos), Ok(150));
    assert_eq!(right.verify_coinbase_transaction(0, &utxos), Ok(()));
    assert_eq!(right.verify_transactions(0, &utxos), Ok(()));
    assert_eq!(right.verify_transactions(210, &utxos), Err(BtcError::InvalidTransaction));
    let split = {
        let mut txs = vec![Transaction::new(
            vec![],
            vec![output(25 * COIN, 6, public), output(25 * COIN + 150, 7, public)],
        )];
        txs.extend(spending.iter().cloned());
        block_of(txs)
    };
    assert_eq!(split.verify_transactions(0, &utxos), Ok(()));
    for wrong in [50 * COIN, 50 * COIN + 149, 50 * COIN + 151, 0] {
        let block = with_coinbase(wrong);
        assert_eq!(block.verify_coinbase_transaction(0, &utxos), Err(BtcError::InvalidTransaction));
        assert_eq!(block.verify_transactions(0, &utxos), Err(BtcError::InvalidTransaction));
    }
    assert_eq!(with_coinbase(25 * COIN + 150).verify_transactions(210, &utxos), Ok(()));
}

#[test]
fn a_signature_by_the_wrong_key_is_an_invalid_signature() {
    let (_, owner) = key_pair();
    let (thief, _) = key_pair();
    let a = output(1000, 1, owner);
    let utxos = index_of(&[a]);
    let block = block_of(vec![
        Transaction::new(vec![], vec![output(50 * COIN + 100, 2, owner)]),
        Transaction::new(vec![spend(&a, &thief)], vec![output(900, 3, owner)]),
    ]);
    assert_eq!(block.verify_coinbase_transaction(1, &utxos), Ok(()));
    assert_eq!(block.verify_transactions(1, &utxos), Err(BtcError::InvalidSignature));
}

#[test]
fn a_signature_over_another_output_is_an_invalid_signature() {
    let (key, public) = key_pair();
    let a = output(1000, 1, public);
    let b = output(1000, 2, public);
    let utxos = index_of(&[a, b]);
    let input = TransactionInput {
        prev_transaction_output_hash: a.hash(),
        signature: Signature::sign_output(&b.hash(), &key).unwrap(),
    };
    let block = block_of(vec![
        Transaction::new(vec![], vec![output(50 * COIN, 3, public)]),
        Transaction::new(vec![input], vec![output(1000, 4, public)]),
    ]);
    assert_eq!(block.verify_transactions(1, &utxos), Err(BtcError::InvalidSignature));
}

#[test]
fn spending_an_output_twice_in_a_block_is_invalid() {
    let (key, public) = key_pair();
    let a = output(1000, 1, public);
    let utxos = index_of(&[a]);
    let block = block_of(vec![
        Transaction::new(vec![], vec![output(50 * COIN + 1000, 2, public)]),
        Transaction::new(vec![spend(&a, &key)], vec![output(500, 3, public)]),
        Transaction::new(vec![spend(&a, &key)], vec![output(500, 4, public)]),
    ]);
    assert_eq!(block.calculate_miner_fees(&utxos), Err(BtcError::InvalidTransaction));
    assert_eq!(block.verify_transactions(1, &utxos), Err(BtcError::InvalidTransaction));
    let within_one = block_of(vec![
        Transaction::new(vec![], vec![output(50 * COIN + 1000, 2, public)]),
        Transaction::new(vec![spend(&a, &key), spend(&a, &key)], vec![output(1000, 3, public)]),
    ]);
    assert_eq!(within_one.verify_transactions(1, &utxos), Err(BtcError::InvalidTransaction));
}

#[test]
fn spending_what_is_not_there_is_invalid() {
    let (key, public) = key_pair();
    let a = output(1000, 1, public);
    let utxos = UtxoSet::new();
    let block = block_of(vec![
        Transaction::new(vec![], vec![output(50 * COIN, 2, public)]),
        Transaction::new(vec![spend(&a, &key)], vec![output(500, 3, public)]),
    ]);
    assert_eq!(block.calculate_miner_fees(&utxos), Err(BtcError::InvalidTransaction));
    assert_eq!(block.verify_transactions(1, &utxos), Err(BtcError::InvalidTransaction));
}

#[test]
fn paying_out_more_than_is_taken_in_is_invalid() {
    let (key, public) = key_pair();
    let a = output(1000, 1, public);
    let b = output(1000, 2, public);
    let utxos = index_of(&[a, b]);
    let over_all = block_of(vec![
        Transaction::new(vec![], vec![output(50 * COIN, 3, public)]),
        Transaction::new(vec![spend(&a, &key)], vec![output(1001, 4, public)]),
    ]);
    assert_eq!(over_all.calculate_miner_fees(&utxos), Err(BtcError::InvalidTransaction));
    assert_eq!(over_all.verify_transactions(1, &utxos), Err(BtcError::InvalidTransaction));
    let one_over = block_of(vec![
        Transaction::new(vec![], vec![output(50 * COIN + 100, 3, public)]),
        Transaction::new(vec![spend(&a, &key)], vec![output(1100, 4, public)]),
        Transaction::new(vec![spend(&b, &key)], vec![output(800, 5, public)]),
    ]);
    assert_eq!(one_over.calculate_miner_fees(&utxos), Ok(100));
    assert_eq!(one_over.verify_coinbase_transaction(1, &utxos), Ok(()));
    assert_eq!(one_over.verify_transactions(1, &utxos), Err(BtcError::InvalidTransaction));
}

#[test]
fn two_outputs_with_the_same_hash_make_the_fees_undefined() {
    let (key, public) = key_pair();
    let a = output(1000, 1, public);
    let utxos = index_of(&[a]);
    let twin = output(400, 7, public);
    let block = block_of(vec![
        Transaction::new(vec![], vec![output(50 * COIN + 200, 3, public)]),
        Transaction::new(vec![spend(&a, &key)], vec![twin, twin]),
    ]);
    assert_eq!(block.calculate_miner_fees(&utxos), Err(BtcError::InvalidTransaction));
    assert_eq!(block.verify_transactions(1, &utxos), Err(BtcError::InvalidTransaction));
}

#[test]
fn the_first_error_in_order_decides() {
    let (key, public) = key_pair();
    let (thief, _) = key_pair();
    let a = output(1000, 1, public);
    let b = output(1000, 2, public);
    let utxos = index_of(&[a, b]);
    let overpaid_first = block_of(vec![
        Transaction::new(vec![], vec![output(50 * COIN + 100, 3, public)]),
        Transaction::new(vec![spend(&a, &key)], vec![output(1100, 4, public)]),
        Transaction::new(vec![spend(&b, &thief)], vec![output(800, 5, public)]),
    ]);
    assert_eq!(overpaid_first.verify_transactions(1, &utxos), Err(BtcError::InvalidTransaction));
    let forged_first = block_of(vec![
        Transaction::new(vec![], vec![output(50 * COIN + 100, 3, public)]),
        Transaction::new(vec![spend(&b, &thief)], vec![output(800, 5, public)]),
        Transaction::new(vec![spend(&a, &key)], vec![output(1100, 4, public)]),
    ]);
    assert_eq!(forged_first.verify_transactions(1, &utxos), Err(BtcError::InvalidSignature));
}

#[test]
fn mining_with_the_largest_target_succeeds_at_once() {
    let mut header = header_with(U256::max_value(), 41);
    assert!(header.mine(0));
    assert_eq!(header, header_with(U256::max_value(), 41));
    assert!(header.mine(1000));
    assert_eq!(header.nonce, 41);
}

#[test]
fn mining_with_the_target_zero_uses_up_its_steps() {
    let mut header = header_with(U256::zero(), 41);
    assert!(!header.mine(0));
    assert_eq!(header.nonce, 41);
    assert!(!header.mine(5));
    assert_eq!(header, header_with(U256::zero(), 46));
}

#[test]
fn mining_stops_at_the_first_nonce_that_works() {
    let target = U256 { l0: u64::MAX, l1: u64::MAX, l2: u64::MAX, l3: u64::MAX >> 4 };
    let mut header = header_with(target, 0);
    assert!(header.mine(100_000));
    assert!(header.hash().matches_target(target));
    let found = header.nonce;
    for nonce in 0..found {
        assert!(!header_with(target, nonce).hash().matches_target(target));
    }
    assert_eq!(header, header_with(target, found));
    let mut again = header_with(target, 0);
    if found > 0 {
        assert!(!again.mine((found - 1) as usize));
        assert_eq!(again.nonce, found - 1);
        assert!(again.mine(1));
        assert_eq!(again.nonce, found);
    }
}

#[test]
fn mining_past_the_largest_nonce_starts_again_with_a_new_timestamp() {
    let mut header = header_with(U256::zero(), u64::MAX - 1);
    assert!(!header.mine(3));
    assert_eq!(header.nonce, 1);
    assert!(header.timestamp.is_after(&Timestamp::new(1_700_000_000, 0)));
    assert_eq!(header.target, U256::zero());
    assert_eq!(header.prev_block_hash, sha256::Hash::zero());
}
