use lib::crypto::{PrivateKey, PublicKey, Signature};
use lib::error::BtcError;
use lib::network::Message;
use lib::sha256;
use lib::time::Timestamp;
use lib::types::{
    Block, BlockHeader, Blockchain, Transaction, TransactionInput, TransactionOutput, UtxoSet,
};
use lib::utils::MerkleRoot;
use lib::wallet::{
    build_transaction, create_transaction, find_key, get_balance, select_outputs, FeeType, Key,
    LoadedKey, WalletError,
};
use std::path::PathBuf;

fn loaded_key() -> LoadedKey {
    let private = PrivateKey::new_key();
    LoadedKey { public: private.public_key().expect("a fresh key is valid"), private }
}

fn output(value: u64, id: u128, pubkey: PublicKey) -> TransactionOutput {
    TransactionOutput { value, unique_id: id, pubkey }
}

fn signed(spent: &TransactionOutput, key: &LoadedKey) -> TransactionInput {
    TransactionInput {
        prev_transaction_output_hash: spent.hash(),
        signature: Signature::sign_output(&spent.hash(), &key.private).unwrap(),
    }
}

fn chain_with(outputs: &[TransactionOutput]) -> Blockchain {
    let transactions = vec![Transaction::new(vec![], outputs.to_vec())];
    let block = Block::new(
        BlockHeader::new(
            Timestamp::new(1_700_000_000, 0),
            0,
            sha256::Hash::zero(),
            MerkleRoot::calculate(&transactions),
            lib::min_target(),
        ),
        transactions,
    );
    let mut chain = Blockchain::from_parts(UtxoSet::new(), vec![block], lib::min_target()).unwrap();
    chain.rebuild_utxos();
    chain
}

#[test]
fn the_balance_counts_reserved_outputs_too() {
    let key = loaded_key();
    assert_eq!(get_balance(&vec![]), 0);
    let utxos = vec![
        (false, output(5, 1, key.public)),
        (true, output(7, 2, key.public)),
        (false, output(u64::MAX, 3, key.public)),
    ];
    assert_eq!(get_balance(&utxos), 12 + u64::MAX as u128);
}

#[test]
fn outputs_are_taken_in_order_until_the_total_is_covered() {
    let key = loaded_key();
    let outs: Vec<TransactionOutput> =
        [5u64, 7, 11, 13, 17].iter().enumerate().map(|(i, v)| output(*v, i as u128, key.public)).collect();
    let utxos = vec![
        (false, outs[0]),
        (true, outs[1]),
        (false, outs[2]),
        (false, outs[3]),
        (false, outs[4]),
    ];
    assert_eq!(select_outputs(&utxos, 0), (vec![], 0));
    assert_eq!(select_outputs(&utxos, 1), (vec![outs[0]], 5));
    assert_eq!(select_outputs(&utxos, 5), (vec![outs[0]], 5));
    assert_eq!(select_outputs(&utxos, 6), (vec![outs[0], outs[2]], 16));
    assert_eq!(select_outputs(&utxos, 16), (vec![outs[0], outs[2]], 16));
    assert_eq!(select_outputs(&utxos, 17), (vec![outs[0], outs[2], outs[3]], 29));
    assert_eq!(select_outputs(&utxos, 46), (vec![outs[0], outs[2], outs[3], outs[4]], 46));
    assert_eq!(select_outputs(&utxos, 47), (vec![outs[0], outs[2], outs[3], outs[4]], 46));
    assert_eq!(select_outputs(&utxos, u64::MAX), (vec![outs[0], outs[2], outs[3], outs[4]], 46));
}

#[test]
fn a_payment_spends_pays_and_gives_back_the_rest() {
    let key = loaded_key();
    let other = loaded_key();
    let recipient = loaded_key().public;
    let a = output(100, 1, key.public);
    let b = output(50, 2, other.public);
    let c = output(70, 3, key.public);
    let utxos = vec![(false, a), (false, b), (false, c)];
    let keys = vec![other, key];
    let tx = build_transaction(&keys, &utxos, &recipient, 120, 10, 77, 88).unwrap();
    assert_eq!(tx.inputs, vec![signed(&a, &key), signed(&b, &other)]);
    assert_eq!(tx.outputs, vec![output(120, 77, recipient), output(20, 88, other.public)]);
    for (input, spent) in tx.inputs.iter().zip([a, b].iter()) {
        assert!(input.signature.verify(&spent.hash(), &spent.pubkey));
    }
    let exact = build_transaction(&keys, &utxos, &recipient, 140, 10, 77, 88).unwrap();
    assert_eq!(exact.inputs.len(), 2);
    assert_eq!(exact.outputs, vec![output(140, 77, recipient)]);
    let all = build_transaction(&keys, &utxos, &recipient, 200, 20, 77, 88).unwrap();
    assert_eq!(all.inputs.len(), 3);
    assert_eq!(all.outputs, vec![output(200, 77, recipient)]);
    let nothing = build_transaction(&keys, &utxos, &recipient, 0, 0, 77, 88).unwrap();
    assert!(nothing.inputs.is_empty());
    assert_eq!(nothing.outputs, vec![output(0, 77, recipient)]);
}

#[test]
fn a_payment_that_is_not_covered_fails() {
    let key = loaded_key();
    let recipient = loaded_key().public;
    let utxos = vec![(false, output(100, 1, key.public)), (true, output(500, 2, key.public))];
    let keys = vec![key];
    assert_eq!(
        build_transaction(&keys, &utxos, &recipient, 100, 1, 7, 8),
        Err(WalletError::InsufficientFunds)
    );
    assert_eq!(
        build_transaction(&keys, &vec![], &recipient, 1, 0, 7, 8),
        Err(WalletError::InsufficientFunds)
    );
    assert!(build_transaction(&keys, &utxos, &recipient, 99, 1, 7, 8).is_ok());
}

#[test]
fn a_payment_needs_the_keys_of_what_it_spends() {
    let key = loaded_key();
    let stranger = loaded_key();
    let recipient = loaded_key().public;
    let utxos = vec![(false, output(100, 1, key.public)), (false, output(100, 2, stranger.public))];
    assert_eq!(
        build_transaction(&vec![key], &utxos, &recipient, 150, 0, 7, 8),
        Err(WalletError::UnknownKey)
    );
    assert_eq!(
        build_transaction(&vec![key], &utxos, &recipient, 1000, 0, 7, 8),
        Err(WalletError::UnknownKey)
    );
    assert!(build_transaction(&vec![key], &utxos, &recipient, 100, 0, 7, 8).is_ok());
    assert_eq!(
        build_transaction(&vec![], &utxos, &recipient, 1, 0, 7, 8),
        Err(WalletError::UnknownKey)
    );
    let broken = LoadedKey { public: key.public, private: PrivateKey { scalar: lib::u256::U256::zero() } };
    assert_eq!(
        build_transaction(&vec![broken, key], &utxos, &recipient, 1, 0, 7, 8),
        Err(WalletError::InvalidKey)
    );
    assert_eq!(find_key(&vec![broken, key], &key.public), Some(broken));
    assert_eq!(find_key(&vec![key], &stranger.public), None);
}

#[test]
fn an_amount_and_a_fee_of_more_than_64_bits_fail() {
    let key = loaded_key();
    let recipient = loaded_key().public;
    let utxos = vec![(false, output(u64::MAX, 1, key.public)), (false, output(u64::MAX, 2, key.public))];
    assert_eq!(
        build_transaction(&vec![key], &utxos, &recipient, u64::MAX, 1, 7, 8),
        Err(WalletError::AmountTooLarge)
    );
    let tx = build_transaction(&vec![key], &utxos, &recipient, u64::MAX - 1, 1, 7, 8).unwrap();
    assert_eq!(tx.inputs.len(), 1);
    assert_eq!(tx.outputs.len(), 1);
    let two = build_transaction(&vec![key], &utxos, &recipient, 5, 0, 7, 8).unwrap();
    assert_eq!(two.outputs[1].value, u64::MAX - 5);
}

#[test]
fn payments_get_fresh_identifiers() {
    let key = loaded_key();
    let recipient = loaded_key().public;
    let utxos = vec![(false, output(100, 1, key.public))];
    let first = create_transaction(&vec![key], &utxos, &recipient, 50, 5).unwrap();
    let second = create_transaction(&vec![key], &utxos, &recipient, 50, 5).unwrap();
    assert_eq!(first.inputs, second.inputs);
    assert_eq!(first.outputs.len(), 2);
    assert_eq!(first.outputs[0].value, 50);
    assert_eq!(first.outputs[1].value, 45);
    assert_ne!(first.outputs[0].unique_id, second.outputs[0].unique_id);
    assert_ne!(first.outputs[0].unique_id, first.outputs[1].unique_id);
    assert_eq!(first.outputs[0].unique_id & 0xF000_0000_0000_0000_0000, 0x4000_0000_0000_0000_0000);
    assert_eq!(
        create_transaction(&vec![key], &utxos, &recipient, 100, 5),
        Err(WalletError::InsufficientFunds)
    );
}

#[test]
fn a_payment_enters_the_pool_of_a_node() {
    let key = loaded_key();
    let recipient = loaded_key().public;
    let mine = [output(300, 1, key.public), output(200, 2, key.public)];
    let mut chain = chain_with(&mine);
    let utxos: Vec<(bool, TransactionOutput)> = match chain.handle_message(Message::FetchUTXOs(key.public)) {
        Some(Message::UTXOs(found)) => found.into_iter().map(|(o, marked)| (marked, o)).collect(),
        _ => panic!("a request for outputs is answered with outputs"),
    };
    assert_eq!(utxos, vec![(false, mine[0]), (false, mine[1])]);
    let tx = create_transaction(&vec![key], &utxos, &recipient, 350, 25).unwrap();
    assert!(chain.handle_message(Message::SubmitTransaction(tx.clone())).is_none());
    assert_eq!(chain.mempool().len(), 1);
    assert_eq!(chain.mempool()[0].1, tx);
    match chain.handle_message(Message::FetchUTXOs(key.public)) {
        Some(Message::UTXOs(found)) => assert_eq!(found, vec![(mine[0], true), (mine[1], true)]),
        _ => panic!("a request for outputs is answered with outputs"),
    }
}

#[test]
fn a_node_answers_with_the_outputs_of_the_key_only() {
    let key = loaded_key();
    let other = loaded_key();
    let outs = [
        output(1, 1, key.public),
        output(2, 2, other.public),
        output(3, 3, key.public),
        output(4, 4, other.public),
    ];
    let mut chain = chain_with(&outs);
    let before = chain.save();
    match chain.handle_message(Message::FetchUTXOs(other.public)) {
        Some(Message::UTXOs(found)) => assert_eq!(found, vec![(outs[1], false), (outs[3], false)]),
        _ => panic!("a request for outputs is answered with outputs"),
    }
    match chain.handle_message(Message::FetchUTXOs(loaded_key().public)) {
        Some(Message::UTXOs(found)) => assert!(found.is_empty()),
        _ => panic!("a request for outputs is answered with outputs"),
    }
    assert_eq!(chain.utxos().outputs_of(&key.public), vec![(outs[0], false), (outs[2], false)]);
    assert!(chain.handle_message(Message::UTXOs(vec![(outs[0], true)])).is_none());
    assert_eq!(chain.save(), before);
}

#[test]
fn a_node_does_not_take_an_invalid_transaction() {
    let key = loaded_key();
    let mine = [output(300, 1, key.public)];
    let mut chain = chain_with(&mine);
    let greedy = Transaction::new(vec![signed(&mine[0], &key)], vec![output(301, 5, key.public)]);
    let before = chain.save();
    assert!(chain.handle_message(Message::SubmitTransaction(greedy)).is_none());
    assert!(chain.mempool().is_empty());
    assert_eq!(chain.save(), before);
}

#[test]
fn what_a_wallet_keeps_on_file() {
    let key = Key { public: PathBuf::from("alice.pub.pem"), private: PathBuf::from("alice.priv.cbor") };
    let copy = key.clone();
    assert_eq!(copy.public, PathBuf::from("alice.pub.pem"));
    assert_eq!(copy.private, PathBuf::from("alice.priv.cbor"));
    assert!(matches!(FeeType::Fixed.clone(), FeeType::Fixed));
    assert!(matches!(FeeType::Percent.clone(), FeeType::Percent));
}

#[test]
fn a_message_is_loaded_as_it_was_saved() {
    let key = loaded_key();
    let fetch = Message::FetchUTXOs(key.public);
    let bytes = fetch.save();
    let mut expected = vec![0x82u8, 0x00, 0x58, 33];
    expected.extend_from_slice(&key.public.to_sec1());
    assert_eq!(bytes, expected);
    assert!(matches!(Message::load(&bytes), Ok(Message::FetchUTXOs(k)) if k == key.public));
    let outs = vec![(output(5, 1, key.public), true), (output(7, 2, key.public), false)];
    let found = Message::UTXOs(outs.clone());
    let bytes = found.save();
    assert_eq!(bytes[..3], [0x82, 0x01, 0x82]);
    assert!(matches!(Message::load(&bytes), Ok(Message::UTXOs(list)) if list == outs));
    let none = Message::UTXOs(vec![]).save();
    assert_eq!(none, vec![0x82, 0x01, 0x80]);
    assert!(matches!(Message::load(&none), Ok(Message::UTXOs(list)) if list.is_empty()));
    let tx = Transaction::new(vec![signed(&outs[0].0, &key)], vec![outs[1].0]);
    let submit = Message::SubmitTransaction(tx.clone());
    let bytes = submit.save();
    let mut expected = vec![0x82u8, 0x02];
    expected.extend_from_slice(&tx.save());
    assert_eq!(bytes, expected);
    assert!(matches!(Message::load(&bytes), Ok(Message::SubmitTransaction(t)) if t == tx));
}

#[test]
fn bytes_that_are_no_message_are_refused() {
    let key = loaded_key();
    let bytes = Message::FetchUTXOs(key.public).save();
    assert!(matches!(Message::load(&bytes[..bytes.len() - 1]), Err(BtcError::IoError)));
    let mut longer = bytes.clone();
    longer.push(0);
    assert!(matches!(Message::load(&longer), Err(BtcError::IoError)));
    let mut other_kind = bytes.clone();
    other_kind[1] = 3;
    assert!(matches!(Message::load(&other_kind), Err(BtcError::IoError)));
    let mut as_list = bytes.clone();
    as_list[1] = 1;
    assert!(matches!(Message::load(&as_list), Err(BtcError::IoError)));
    assert!(matches!(Message::load(&[]), Err(BtcError::IoError)));
    assert!(matches!(Message::load(&[0x82, 0x02, 0x82, 0x80, 0x80, 0x00]), Err(BtcError::IoError)));
    assert!(matches!(Message::load(&[0x82, 0x02, 0x82, 0x80, 0x80]), Ok(Message::SubmitTransaction(_))));
}
