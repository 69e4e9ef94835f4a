use lib::crypto::{PrivateKey, PublicKey, Signature};
use lib::error::BtcError;
use lib::sha256;
use lib::time::Timestamp;
use lib::types::blockchain::retarget;
use lib::types::{
    Block, BlockHeader, Blockchain, Transaction, TransactionInput, TransactionOutput, UtxoSet,
};
use lib::u256::U256;
use lib::utils::MerkleRoot;

const COIN: u64 = 100_000_000;
const START: i64 = 1_700_000_000;

fn dec(text: &str) -> U256 {
    U256::from_decimal(text.as_bytes()).expect("a decimal number of at most 256 bits")
}

fn key_pair() -> (PrivateKey, PublicKey) {
    let key = PrivateKey::new_key();
    let public = key.public_key().expect("a fresh key is valid");
    (key, public)
}

fn output(value: u64, id: u128, pubkey: PublicKey) -> TransactionOutput {
    TransactionOutput { value, unique_id: id, pubkey }
}

fn spend(spent: &TransactionOutput, key: &PrivateKey) -> TransactionInput {
    TransactionInput {
        prev_transaction_output_hash: spent.hash(),
        signature: Signature::sign_output(&spent.hash(), key).unwrap(),
    }
}

fn coinbase(value: u64, id: u128, pubkey: PublicKey) -> Transaction {
    Transaction::new(vec![], vec![output(value, id, pubkey)])
}

fn block_after(prev: sha256::Hash, secs: i64, transactions: Vec<Transaction>) -> Block {
    Block::new(
        BlockHeader::new(
            Timestamp::new(secs, 0),
            0,
            prev,
            MerkleRoot::calculate(&transactions),
            U256::max_value(),
        ),
        transactions,
    )
}

fn genesis(pubkey: PublicKey) -> Block {
    Block::new(
        BlockHeader::new(
            Timestamp::new(START, 0),
            0,
            sha256::Hash::zero(),
            MerkleRoot::calculate(&[coinbase(50 * COIN, 0, pubkey)]),
            lib::min_target(),
        ),
        vec![coinbase(50 * COIN, 0, pubkey)],
    )
}

fn tip_hash(chain: &Blockchain) -> sha256::Hash {
    chain.blocks().last().unwrap().header.hash()
}

fn chain_of(count: usize, last_secs: i64, target: U256) -> Blockchain {
    let (_, public) = key_pair();
    let mut blocks = Vec::new();
    let mut prev = sha256::Hash::zero();
    for i in 0..count {
        let secs = if i + 1 == count { last_secs } else { START + i as i64 };
        let block = block_after(prev, secs, vec![coinbase(50 * COIN, i as u128, public)]);
        prev = block.header.hash();
        blocks.push(block);
    }
    Blockchain::from_parts(UtxoSet::new(), blocks, target).expect("the target is allowed")
}

#[test]
fn a_new_chain_is_empty() {
    let chain = Blockchain::new();
    assert_eq!(chain.block_height(), 0);
    assert_eq!(chain.target(), lib::min_target());
    assert!(chain.blocks().is_empty());
    assert!(chain.mempool().is_empty());
    assert_eq!(chain.utxos().len(), 0);
}

#[test]
fn the_first_block_is_taken() {
    let (_, public) = key_pair();
    let mut chain = Blockchain::new();
    let block = genesis(public);
    assert_eq!(chain.add_block(block.clone()), Ok(()));
    assert_eq!(chain.block_height(), 1);
    assert_eq!(chain.blocks().last(), Some(&block));
    assert_eq!(chain.target(), lib::min_target());
    assert_eq!(chain.utxos().len(), 0);
}

#[test]
fn a_first_block_that_names_a_predecessor_is_invalid() {
    let (_, public) = key_pair();
    let mut chain = Blockchain::new();
    let block = block_after(
        sha256::Hash::hash_bytes(b"something"),
        START,
        vec![coinbase(50 * COIN, 0, public)],
    );
    assert_eq!(chain.check_block(&block), Err(BtcError::InvalidBlock));
    assert_eq!(chain.add_block(block), Err(BtcError::InvalidBlock));
    assert_eq!(chain.block_height(), 0);
}

#[test]
fn a_first_block_must_be_in_order_too() {
    let (_, public) = key_pair();
    let mut chain = Blockchain::new();
    let overpaid = block_after(sha256::Hash::zero(), START, vec![coinbase(50 * COIN + 1, 0, public)]);
    assert_eq!(chain.add_block(overpaid), Err(BtcError::InvalidTransaction));
    let mut wrong_root = genesis(public);
    wrong_root.header.merkle_root = MerkleRoot { hash: sha256::Hash::zero() };
    assert_eq!(chain.add_block(wrong_root), Err(BtcError::InvalidMerkleRoot));
    let empty = block_after(sha256::Hash::zero(), START, vec![]);
    assert_eq!(chain.add_block(empty), Err(BtcError::InvalidTransaction));
    assert_eq!(chain.block_height(), 0);
    let mut unmined = genesis(public);
    unmined.header.target = U256::zero();
    assert_eq!(chain.add_block(unmined), Ok(()));
}

#[test]
fn a_second_block_with_another_predecessor_is_invalid() {
    let (_, public) = key_pair();
    let mut chain = Blockchain::new();
    chain.add_block(genesis(public)).unwrap();
    let stray = block_after(
        sha256::Hash::hash_bytes(b"a random hash"),
        START + 1,
        vec![coinbase(50 * COIN, 1, public)],
    );
    assert_eq!(chain.add_block(stray), Err(BtcError::InvalidBlock));
    let by_block_hash = block_after(
        chain.blocks()[0].hash(),
        START + 1,
        vec![coinbase(50 * COIN, 1, public)],
    );
    assert_eq!(chain.add_block(by_block_hash), Err(BtcError::InvalidBlock));
    assert_eq!(chain.block_height(), 1);
    let next = block_after(tip_hash(&chain), START + 1, vec![coinbase(50 * COIN, 1, public)]);
    assert_eq!(chain.add_block(next.clone()), Ok(()));
    assert_eq!(chain.block_height(), 2);
    assert_eq!(chain.blocks().last(), Some(&next));
}

#[test]
fn a_later_block_must_meet_its_target() {
    let (_, public) = key_pair();
    let mut chain = Blockchain::new();
    chain.add_block(genesis(public)).unwrap();
    let mut block = block_after(tip_hash(&chain), START + 1, vec![coinbase(50 * COIN, 1, public)]);
    block.header.target = U256::zero();
    assert_eq!(chain.add_block(block.clone()), Err(BtcError::InvalidBlock));
    block.header.target = U256 { l0: u64::MAX, l1: u64::MAX, l2: u64::MAX, l3: u64::MAX >> 6 };
    while !block.header.mine(10_000) {}
    assert_eq!(chain.add_block(block), Ok(()));
    assert_eq!(chain.block_height(), 2);
}

#[test]
fn a_later_block_must_hold_its_merkle_root() {
    let (_, public) = key_pair();
    let mut chain = Blockchain::new();
    chain.add_block(genesis(public)).unwrap();
    let mut block = block_after(tip_hash(&chain), START + 1, vec![coinbase(50 * COIN, 1, public)]);
    block.transactions = vec![coinbase(50 * COIN, 2, public)];
    assert_eq!(chain.add_block(block), Err(BtcError::InvalidMerkleRoot));
    let empty = block_after(tip_hash(&chain), START + 1, vec![]);
    assert_eq!(chain.add_block(empty), Err(BtcError::InvalidTransaction));
    assert_eq!(chain.block_height(), 1);
}

#[test]
fn a_later_block_must_be_later_than_the_tip() {
    let (_, public) = key_pair();
    let mut chain = Blockchain::new();
    chain.add_block(genesis(public)).unwrap();
    let same = block_after(tip_hash(&chain), START, vec![coinbase(50 * COIN, 1, public)]);
    assert_eq!(chain.add_block(same), Err(BtcError::InvalidBlock));
    let earlier = block_after(tip_hash(&chain), START - 1, vec![coinbase(50 * COIN, 1, public)]);
    assert_eq!(chain.add_block(earlier), Err(BtcError::InvalidBlock));
    let mut just_after = block_after(tip_hash(&chain), START, vec![coinbase(50 * COIN, 1, public)]);
    just_after.header.timestamp = Timestamp::new(START, 1);
    assert_eq!(chain.add_block(just_after), Ok(()));
}

#[test]
fn a_later_block_must_have_transactions_in_order() {
    let (key, public) = key_pair();
    let (thief, _) = key_pair();
    let mut chain = Blockchain::new();
    chain.add_block(genesis(public)).unwrap();
    chain.rebuild_utxos();
    let spent = chain.blocks()[0].transactions[0].outputs[0];
    let forged = block_after(
        tip_hash(&chain),
        START + 1,
        vec![
            coinbase(50 * COIN + 5, 1, public),
            Transaction::new(vec![spend(&spent, &thief)], vec![output(50 * COIN - 5, 2, public)]),
        ],
    );
    assert_eq!(chain.add_block(forged), Err(BtcError::InvalidSignature));
    let wrong_reward = block_after(tip_hash(&chain), START + 1, vec![coinbase(49 * COIN, 1, public)]);
    assert_eq!(chain.add_block(wrong_reward), Err(BtcError::InvalidTransaction));
    let good = block_after(
        tip_hash(&chain),
        START + 1,
        vec![
            coinbase(50 * COIN + 5, 1, public),
            Transaction::new(vec![spend(&spent, &key)], vec![output(50 * COIN - 5, 2, public)]),
        ],
    );
    assert_eq!(chain.add_block(good), Ok(()));
    assert_eq!(chain.block_height(), 2);
}

#[test]
fn appending_leaves_the_index_to_the_rescan() {
    let (key, public) = key_pair();
    let mut chain = Blockchain::new();
    chain.add_block(genesis(public)).unwrap();
    assert_eq!(chain.utxos().len(), 0);
    chain.rebuild_utxos();
    let first = chain.blocks()[0].transactions[0].outputs[0];
    assert_eq!(chain.utxos().len(), 1);
    assert_eq!(chain.utxos().get(&first.hash()), Some((false, first)));
    let paid = output(50 * COIN - 5, 2, public);
    let reward = output(50 * COIN + 5, 1, public);
    let block = block_after(
        tip_hash(&chain),
        START + 1,
        vec![
            Transaction::new(vec![], vec![reward]),
            Transaction::new(vec![spend(&first, &key)], vec![paid]),
        ],
    );
    chain.add_block(block).unwrap();
    assert_eq!(chain.utxos().len(), 1);
    chain.rebuild_utxos();
    assert_eq!(chain.utxos().len(), 2);
    assert_eq!(chain.utxos().get(&first.hash()), None);
    assert_eq!(chain.utxos().get(&paid.hash()), Some((false, paid)));
    assert_eq!(chain.utxos().get(&reward.hash()), Some((false, reward)));
}

#[test]
fn scanning_twice_changes_nothing() {
    let (key, public) = key_pair();
    let mut chain = Blockchain::new();
    chain.add_block(genesis(public)).unwrap();
    let first = chain.blocks()[0].transactions[0].outputs[0];
    chain.rebuild_utxos();
    let block = block_after(
        tip_hash(&chain),
        START + 1,
        vec![
            coinbase(50 * COIN, 1, public),
            Transaction::new(
                vec![spend(&first, &key)],
                vec![output(20 * COIN, 2, public), output(30 * COIN, 3, public)],
            ),
        ],
    );
    chain.add_block(block).unwrap();
    chain.rebuild_utxos();
    let once: Vec<_> = (0..chain.utxos().len()).map(|i| chain.utxos().entry_at(i)).collect();
    chain.rebuild_utxos();
    let twice: Vec<_> = (0..chain.utxos().len()).map(|i| chain.utxos().entry_at(i)).collect();
    assert_eq!(once.len(), 3);
    assert_eq!(twice.len(), 3);
    for entry in once.iter() {
        assert_eq!(chain.utxos().get(&entry.key), Some((entry.reserved, entry.output)));
        assert!(twice.contains(entry));
    }
}

#[test]
fn a_rescan_keeps_what_no_block_settles() {
    let (_, public) = key_pair();
    let extra = output(7, 99, public);
    let mut utxos = UtxoSet::new();
    utxos.insert(extra.hash(), true, extra);
    let block = genesis(public);
    let first = block.transactions[0].outputs[0];
    let mut chain = Blockchain::from_parts(utxos, vec![block], lib::min_target()).unwrap();
    chain.rebuild_utxos();
    assert_eq!(chain.utxos().len(), 2);
    assert_eq!(chain.utxos().get(&extra.hash()), Some((true, extra)));
    assert_eq!(chain.utxos().get(&first.hash()), Some((false, first)));
}

#[test]
fn a_block_takes_its_transactions_out_of_the_pool() {
    let (key, public) = key_pair();
    let mut chain = Blockchain::new();
    chain
        .add_block(block_after(
            sha256::Hash::zero(),
            START,
            vec![Transaction::new(
                vec![],
                vec![output(20 * COIN, 1, public), output(30 * COIN, 2, public)],
            )],
        ))
        .unwrap();
    chain.rebuild_utxos();
    let a = chain.blocks()[0].transactions[0].outputs[0];
    let b = chain.blocks()[0].transactions[0].outputs[1];
    let spend_a = Transaction::new(vec![spend(&a, &key)], vec![output(20 * COIN - 10, 3, public)]);
    let spend_b = Transaction::new(vec![spend(&b, &key)], vec![output(30 * COIN - 20, 4, public)]);
    chain.add_to_mempool(spend_a.clone()).unwrap();
    chain.add_to_mempool(spend_b.clone()).unwrap();
    assert_eq!(chain.mempool().len(), 2);
    let block = block_after(
        tip_hash(&chain),
        START + 1,
        vec![coinbase(50 * COIN + 10, 5, public), spend_a.clone()],
    );
    assert_eq!(chain.add_block(block.clone()), Ok(()));
    assert_eq!(chain.blocks().last(), Some(&block));
    assert_eq!(chain.mempool().len(), 1);
    assert_eq!(chain.mempool()[0].1, spend_b);
    for (_, waiting) in chain.mempool().iter() {
        for confirmed in block.transactions.iter() {
            assert_ne!(waiting.hash(), confirmed.hash());
        }
    }
}

#[test]
fn a_rejected_block_leaves_the_chain_as_it_was() {
    let (key, public) = key_pair();
    let mut chain = Blockchain::new();
    chain.add_block(genesis(public)).unwrap();
    chain.rebuild_utxos();
    let first = chain.blocks()[0].transactions[0].outputs[0];
    let waiting = Transaction::new(vec![spend(&first, &key)], vec![output(COIN, 3, public)]);
    chain.add_to_mempool(waiting.clone()).unwrap();
    let before = chain.save();
    let stray = block_after(sha256::Hash::zero(), START + 1, vec![waiting.clone()]);
    assert_eq!(chain.add_block(stray), Err(BtcError::InvalidBlock));
    assert_eq!(chain.save(), before);
    assert_eq!(chain.mempool().len(), 1);
    assert_eq!(chain.mempool()[0].1, waiting);
}

#[test]
fn the_target_is_adjusted_after_fifty_blocks() {
    let (_, public) = key_pair();
    let mut chain = Blockchain::new();
    let mut prev = sha256::Hash::zero();
    for i in 0..50i64 {
        assert_eq!(chain.target(), lib::min_target());
        let secs = if i == 49 { START + 100 } else { START + i };
        let block = block_after(prev, secs, vec![coinbase(50 * COIN, i as u128, public)]);
        prev = block.header.hash();
        assert_eq!(chain.add_block(block), Ok(()));
    }
    assert_eq!(chain.block_height(), 50);
    assert_eq!(chain.target(), lib::min_target().div_rem_u64(4).0);
    assert_eq!(
        chain.target(),
        dec("6739986666787659948666753771754907668409286105635143120275902562303")
    );
    let next = block_after(prev, START + 101, vec![coinbase(50 * COIN, 50, public)]);
    let old = chain.target();
    chain.add_block(next).unwrap();
    assert_eq!(chain.target(), old);
}

#[test]
fn the_target_follows_the_time_that_the_interval_took() {
    let mut on_time = chain_of(50, START + 500, U256::from_u64(1_000_000));
    on_time.try_adjust_target();
    assert_eq!(on_time.target(), U256::from_u64(1_000_000));
    let mut slow = chain_of(50, START + 750, U256::from_u64(1_000_000));
    slow.try_adjust_target();
    assert_eq!(slow.target(), U256::from_u64(1_500_000));
    let mut fast = chain_of(50, START + 333, U256::from_u64(1001));
    fast.try_adjust_target();
    assert_eq!(fast.target(), U256::from_u64(666));
    let mut very_slow = chain_of(50, START + 5000, U256::from_u64(1000));
    very_slow.try_adjust_target();
    assert_eq!(very_slow.target(), U256::from_u64(4000));
    let mut very_fast = chain_of(50, START + 100, U256::from_u64(1000));
    very_fast.try_adjust_target();
    assert_eq!(very_fast.target(), U256::from_u64(250));
    let mut hundred = chain_of(100, START + 1050, U256::from_u64(1000));
    hundred.try_adjust_target();
    assert_eq!(hundred.target(), U256::from_u64(2000));
}

#[test]
fn the_target_stays_between_two_adjustments() {
    for count in [0usize, 1, 49, 51, 99] {
        let mut chain = chain_of(count, START + 100_000, U256::from_u64(1000));
        chain.try_adjust_target();
        assert_eq!(chain.target(), U256::from_u64(1000));
    }
}

#[test]
fn the_target_never_passes_the_largest_target_allowed() {
    let mut slow = chain_of(50, START + 5000, lib::min_target());
    slow.try_adjust_target();
    assert_eq!(slow.target(), lib::min_target());
    let near = lib::min_target().div_rem_u64(2).0;
    let mut slower = chain_of(50, START + 1500, near);
    slower.try_adjust_target();
    assert_eq!(slower.target(), lib::min_target());
    assert_eq!(
        Blockchain::from_parts(
            UtxoSet::new(),
            vec![],
            lib::min_target().checked_add(U256::from_u64(1)).unwrap()
        )
        .is_none(),
        true
    );
}

#[test]
fn an_adjustment_scales_rounds_down_and_clamps() {
    let t = U256::from_u64;
    assert_eq!(retarget(t(1000), 500), t(1000));
    assert_eq!(retarget(t(1000), 750), t(1500));
    assert_eq!(retarget(t(1000), 499), t(998));
    assert_eq!(retarget(t(1001), 333), t(666));
    assert_eq!(retarget(t(7), 100), t(1));
    assert_eq!(retarget(t(5), 100), t(1));
    assert_eq!(retarget(t(1000), 125), t(250));
    assert_eq!(retarget(t(1000), 124), t(250));
    assert_eq!(retarget(t(1000), 126), t(252));
    assert_eq!(retarget(t(1000), 2000), t(4000));
    assert_eq!(retarget(t(1000), 2001), t(4000));
    assert_eq!(retarget(t(1000), 1999), t(3998));
    assert_eq!(retarget(t(1000), 0), t(250));
    assert_eq!(retarget(t(1000), -1), t(250));
    assert_eq!(retarget(t(1000), i128::MIN), t(250));
    assert_eq!(retarget(t(1000), i64::MAX as i128), t(4000));
    assert_eq!(retarget(t(1000), i64::MAX as i128 + 1), t(4000));
    assert_eq!(retarget(t(1000), i128::MAX), t(4000));
    assert_eq!(retarget(t(0), 700), t(0));
    assert_eq!(retarget(t(3), 1), t(0));
    assert_eq!(retarget(U256::max_value(), 500), lib::min_target());
    assert_eq!(retarget(U256::max_value(), i64::MAX as i128), lib::min_target());
    assert_eq!(retarget(U256::max_value(), 1), lib::min_target());
    assert_eq!(
        retarget(lib::min_target(), 100),
        dec("6739986666787659948666753771754907668409286105635143120275902562303")
    );
    assert_eq!(
        retarget(lib::min_target(), 250),
        dec("13479973333575319897333507543509815336818572211270286240551805124607")
    );
    assert_eq!(retarget(lib::min_target(), 501), lib::min_target());
    assert_eq!(
        retarget(dec("1000000000000000000000000000000000000000000000000000000000000"), 777),
        dec("1554000000000000000000000000000000000000000000000000000000000")
    );
}

#[test]
fn a_chain_is_loaded_as_it_was_saved() {
    let (key, public) = key_pair();
    let mut chain = Blockchain::new();
    chain.add_block(genesis(public)).unwrap();
    chain.rebuild_utxos();
    let first = chain.blocks()[0].transactions[0].outputs[0];
    let waiting = Transaction::new(vec![spend(&first, &key)], vec![output(COIN, 3, public)]);
    chain.add_to_mempool(waiting).unwrap();
    chain
        .add_block(block_after(tip_hash(&chain), START + 5, vec![coinbase(50 * COIN, 7, public)]))
        .unwrap();
    let bytes = chain.save();
    let loaded = Blockchain::load(&bytes).ok().expect("what was saved can be loaded");
    assert_eq!(loaded.blocks(), chain.blocks());
    assert_eq!(loaded.target(), chain.target());
    assert_eq!(loaded.utxos().len(), 1);
    assert_eq!(loaded.utxos().entry_at(0), chain.utxos().entry_at(0));
    assert_eq!(loaded.utxos().get(&first.hash()), Some((true, first)));
    assert!(loaded.mempool().is_empty());
    assert_eq!(chain.mempool().len(), 1);
    assert_eq!(loaded.save(), bytes);
}

#[test]
fn the_empty_chain_is_written_in_few_bytes() {
    let mut expected = vec![0x83u8, 0x80, 0x80, 0x58, 0x20, 0, 0, 0, 0];
    expected.extend_from_slice(&[0xff; 28]);
    assert_eq!(Blockchain::new().save(), expected);
    let loaded = Blockchain::load(&expected).ok().unwrap();
    assert_eq!(loaded.block_height(), 0);
    assert_eq!(loaded.target(), lib::min_target());
}

#[test]
fn a_chain_that_is_not_well_formed_is_not_loaded() {
    let good = Blockchain::new().save();
    let mut high_target = good.clone();
    high_target[8] = 1;
    assert!(matches!(Blockchain::load(&high_target), Err(BtcError::IoError)));
    let mut longer = good.clone();
    longer.push(0);
    assert!(matches!(Blockchain::load(&longer), Err(BtcError::IoError)));
    assert!(matches!(Blockchain::load(&good[..good.len() - 1]), Err(BtcError::IoError)));
    assert!(matches!(Blockchain::load(&[]), Err(BtcError::IoError)));
    let (_, public) = key_pair();
    let one = output(5, 1, public);
    let mut entry = vec![0x83u8, 0x58, 0x20];
    entry.extend_from_slice(&one.hash().as_bytes());
    entry.push(0xf4);
    one.encode(&mut entry);
    let mut twice = vec![0x83u8, 0x82];
    twice.extend_from_slice(&entry);
    twice.extend_from_slice(&entry);
    twice.extend_from_slice(&good[2..]);
    assert!(matches!(Blockchain::load(&twice), Err(BtcError::IoError)));
    let mut once = vec![0x83u8, 0x81];
    once.extend_from_slice(&entry);
    once.extend_from_slice(&good[2..]);
    let loaded = Blockchain::load(&once).ok().unwrap();
    assert_eq!(loaded.utxos().get(&one.hash()), Some((false, one)));
}
