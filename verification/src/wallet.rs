//! What a wallet keeps on file: where its keys lie, whom it pays, and how it charges
//! fees.

use crate::crypto::{PrivateKey, PublicKey, Signature};
use crate::error::BtcError;
use crate::types::transaction::{
    lemma_output_total_push, output_total, Transaction, TransactionInput, TransactionOutput,
    TransactionView,
};
use std::path::PathBuf;
use vstd::prelude::*;

verus! {

/// A path in the file system. Nothing is known of it here; it is only carried along.
#[verifier::external_type_specification]
#[verifier::external_body]
pub struct ExPathBuf(PathBuf);

/// `PathBuf::clone` copies a path. Nothing is claimed of the copy here.
pub assume_specification[ <PathBuf as Clone>::clone ](path: &PathBuf) -> PathBuf;

/// The files that hold a pair of keys.
#[derive(Clone, Debug)]
pub struct Key {
    pub public: PathBuf,
    pub private: PathBuf,
}

/// Someone to pay: a name and the file that holds the public key.
#[derive(Clone)]
pub struct Recipient {
    pub name: String,
    pub key: PathBuf,
}

/// A recipient whose key has been read.
#[derive(Clone)]
pub struct LoadedRecipient {
    pub key: PublicKey,
}

/// How the fee of a payment is set.
#[derive(Clone)]
pub enum FeeType {
    /// The same amount for every payment.
    Fixed,
    /// A share of the amount paid, in percent.
    Percent,
}

impl Recipient {
    /// The recipient with the key that `pem`, the text of the recipient's key file,
    /// holds; `IoError` where the text holds no public key.
    pub fn load(&self, pem: &str) -> (r: Result<LoadedRecipient, BtcError>)
        ensures
            match r {
                Ok(loaded) => PublicKey::spec_from_pem(pem@) == Some(loaded.key),
                Err(e) => e == BtcError::IoError && PublicKey::spec_from_pem(pem@).is_none(),
            },
    {
        match PublicKey::from_pem(pem) {
            Ok(key) => Ok(LoadedRecipient { key }),
            Err(e) => Err(e),
        }
    }
}

/// A pair of keys that has been read.
#[derive(Clone, Copy, Debug, PartialEq, Eq, Structural)]
pub struct LoadedKey {
    pub public: PublicKey,
    pub private: PrivateKey,
}

/// Why a wallet could not make a payment.
#[derive(Clone, Copy, Debug, PartialEq, Eq, Structural)]
pub enum WalletError {
    /// The outputs that are free to spend do not cover the amount and the fee.
    InsufficientFunds,
    /// The wallet has no key for an output that it would spend.
    UnknownKey,
    /// A key of the wallet holds no valid scalar.
    InvalidKey,
    /// The amount and the fee together are more than 64 bits hold.
    AmountTooLarge,
}

/// The sum of the values of some unspent outputs, reserved or not.
pub open spec fn balance_total(utxos: Seq<(bool, TransactionOutput)>) -> nat
    decreases utxos.len(),
{
    if utxos.len() == 0 {
        0
    } else {
        balance_total(utxos.drop_last()) + utxos.last().1.value as nat
    }
}

/// A balance is at most the number of outputs times the largest value.
pub proof fn lemma_balance_bound(utxos: Seq<(bool, TransactionOutput)>)
    ensures
        balance_total(utxos) <= utxos.len() * 0xFFFF_FFFF_FFFF_FFFF,
    decreases utxos.len(),
{
    if utxos.len() > 0 {
        lemma_balance_bound(utxos.drop_last());
    }
}

/// The outputs that a payment of `total` spends: going through the unspent outputs in
/// order, every one that is not reserved, as long as those taken so far do not cover
/// the total.
pub open spec fn selected(utxos: Seq<(bool, TransactionOutput)>, total: nat) -> Seq<
    TransactionOutput,
>
    decreases utxos.len(),
{
    if utxos.len() == 0 {
        Seq::empty()
    } else {
        let before = selected(utxos.drop_last(), total);
        if !utxos.last().0 && output_total(before) < total {
            before.push(utxos.last().1)
        } else {
            before
        }
    }
}

/// The first of some keys whose public key is `public`.
pub open spec fn key_for(keys: Seq<LoadedKey>, public: PublicKey) -> Option<LoadedKey>
    decreases keys.len(),
{
    if keys.len() == 0 {
        None
    } else {
        match key_for(keys.drop_last(), public) {
            Some(key) => Some(key),
            None => if keys.last().public == public {
                Some(keys.last())
            } else {
                None
            },
        }
    }
}

/// The input that spends an output, signed with the key of the output's owner.
pub open spec fn signed_input(keys: Seq<LoadedKey>, spent: TransactionOutput) -> Result<
    TransactionInput,
    WalletError,
> {
    match key_for(keys, spent.pubkey) {
        None => Err(WalletError::UnknownKey),
        Some(key) => match Signature::spec_sign(spent.spec_hash(), key.private) {
            None => Err(WalletError::InvalidKey),
            Some(signature) => Ok(
                TransactionInput { prev_transaction_output_hash: spent.spec_hash(), signature },
            ),
        },
    }
}

/// The inputs that spend some outputs, in order; the first error, if there is one.
pub open spec fn signed_inputs(keys: Seq<LoadedKey>, spent: Seq<TransactionOutput>) -> Result<
    Seq<TransactionInput>,
    WalletError,
>
    decreases spent.len(),
{
    if spent.len() == 0 {
        Ok(Seq::empty())
    } else {
        match signed_inputs(keys, spent.drop_last()) {
            Err(e) => Err(e),
            Ok(inputs) => match signed_input(keys, spent.last()) {
                Err(e) => Err(e),
                Ok(input) => Ok(inputs.push(input)),
            },
        }
    }
}

/// The payment of `amount` to `recipient` with the fee `fee` out of some unspent
/// outputs: it spends the selected outputs, pays the amount, and gives back what is
/// left over to the first key of the wallet.
pub open spec fn spec_build_transaction(
    keys: Seq<LoadedKey>,
    utxos: Seq<(bool, TransactionOutput)>,
    recipient: PublicKey,
    amount: u64,
    fee: u64,
    payment_id: u128,
    change_id: u128,
) -> Result<TransactionView, WalletError> {
    let total: nat = (amount + fee) as nat;
    if total > u64::MAX {
        Err(WalletError::AmountTooLarge)
    } else {
        let spent = selected(utxos, total);
        match signed_inputs(keys, spent) {
            Err(e) => Err(e),
            Ok(inputs) => if output_total(spent) < total {
                Err(WalletError::InsufficientFunds)
            } else {
                let payment = TransactionOutput {
                    value: amount,
                    unique_id: payment_id,
                    pubkey: recipient,
                };
                if output_total(spent) > total {
                    Ok(
                        TransactionView {
                            inputs,
                            outputs: seq![
                                payment,
                                TransactionOutput {
                                    value: (output_total(spent) - total) as u64,
                                    unique_id: change_id,
                                    pubkey: keys[0].public,
                                },
                            ],
                        },
                    )
                } else {
                    Ok(TransactionView { inputs, outputs: seq![payment] })
                }
            },
        }
    }
}

/// What is selected exceeds the total by less than the value of one output.
pub proof fn lemma_selected_bound(utxos: Seq<(bool, TransactionOutput)>, total: nat)
    ensures
        output_total(selected(utxos, total)) < total + 0x1_0000_0000_0000_0000,
        selected(utxos, total).len() <= utxos.len(),
    decreases utxos.len(),
{
    if utxos.len() > 0 {
        lemma_selected_bound(utxos.drop_last(), total);
        lemma_output_total_push(selected(utxos.drop_last(), total), utxos.last().1);
    }
}

/// A key that was found among the first keys is the key for all of them.
pub proof fn lemma_key_for_stays(keys: Seq<LoadedKey>, k: int, public: PublicKey)
    requires
        0 <= k <= keys.len(),
        key_for(keys.take(k), public).is_some(),
    ensures
        key_for(keys, public) == key_for(keys.take(k), public),
    decreases keys.len() - k,
{
    if k < keys.len() {
        assert(keys.take(k + 1).drop_last() =~= keys.take(k));
        lemma_key_for_stays(keys, k + 1, public);
    } else {
        assert(keys.take(k) =~= keys);
    }
}

/// The sum of the values of some unspent outputs, reserved or not.
pub fn get_balance(utxos: &Vec<(bool, TransactionOutput)>) -> (sum: u128)
    ensures
        sum == balance_total(utxos@),
{
    let mut sum: u128 = 0;
    let mut i: usize = 0;
    while i < utxos.len()
        invariant
            0 <= i <= utxos.len(),
            sum == balance_total(utxos@.take(i as int)),
        decreases utxos.len() - i,
    {
        proof {
            lemma_balance_bound(utxos@.take(i as int));
            assert(utxos@.take(i + 1).drop_last() =~= utxos@.take(i as int));
        }
        sum = sum + utxos[i].1.value as u128;
        i += 1;
    }
    assert(utxos@.take(i as int) =~= utxos@);
    sum
}

/// The outputs that a payment of `total` spends, and their sum.
pub fn select_outputs(utxos: &Vec<(bool, TransactionOutput)>, total: u64) -> (r: (
    Vec<TransactionOutput>,
    u128,
))
    ensures
        r.0@ == selected(utxos@, total as nat),
        r.1 == output_total(r.0@),
{
    let mut spent: Vec<TransactionOutput> = Vec::new();
    let mut sum: u128 = 0;
    let mut i: usize = 0;
    while i < utxos.len()
        invariant
            0 <= i <= utxos.len(),
            spent@ == selected(utxos@.take(i as int), total as nat),
            sum == output_total(spent@),
        decreases utxos.len() - i,
    {
        proof {
            lemma_selected_bound(utxos@.take(i as int), total as nat);
            assert(utxos@.take(i + 1).drop_last() =~= utxos@.take(i as int));
            lemma_output_total_push(spent@, utxos@[i as int].1);
        }
        if !utxos[i].0 && sum < total as u128 {
            spent.push(utxos[i].1);
            sum = sum + utxos[i].1.value as u128;
        }
        i += 1;
    }
    assert(utxos@.take(i as int) =~= utxos@);
    (spent, sum)
}

/// The first of the keys whose public key is `public`.
pub fn find_key(keys: &Vec<LoadedKey>, public: &PublicKey) -> (r: Option<LoadedKey>)
    ensures
        r == key_for(keys@, *public),
        r.is_some() ==> keys@.len() > 0,
{
    let mut i: usize = 0;
    while i < keys.len()
        invariant
            0 <= i <= keys.len(),
            key_for(keys@.take(i as int), *public).is_none(),
        decreases keys.len() - i,
    {
        assert(keys@.take(i + 1).drop_last() =~= keys@.take(i as int));
        if keys[i].public == *public {
            proof {
                lemma_key_for_stays(keys@, i + 1, *public);
            }
            return Some(keys[i]);
        }
        i += 1;
    }
    assert(keys@.take(i as int) =~= keys@);
    None
}

/// The inputs that spend some outputs, each signed with the key of the output's owner.
pub fn sign_inputs(keys: &Vec<LoadedKey>, spent: &Vec<TransactionOutput>) -> (r: Result<
    Vec<TransactionInput>,
    WalletError,
>)
    ensures
        match r {
            Ok(inputs) => signed_inputs(keys@, spent@) == Ok::<Seq<TransactionInput>, WalletError>(
                inputs@,
            ),
            Err(e) => signed_inputs(keys@, spent@) == Err::<Seq<TransactionInput>, WalletError>(e),
        },
        r.is_ok() && spent@.len() > 0 ==> keys@.len() > 0,
{
    let mut inputs: Vec<TransactionInput> = Vec::new();
    let mut i: usize = 0;
    while i < spent.len()
        invariant
            0 <= i <= spent.len(),
            signed_inputs(keys@, spent@.take(i as int)) == Ok::<Seq<TransactionInput>, WalletError>(
                inputs@,
            ),
            i > 0 ==> keys@.len() > 0,
        decreases spent.len() - i,
    {
        assert(spent@.take(i + 1).drop_last() =~= spent@.take(i as int));
        let hash: crate::sha256::Hash = spent[i].hash();
        let key: LoadedKey = match find_key(keys, &spent[i].pubkey) {
            Some(key) => key,
            None => {
                proof {
                    lemma_signed_inputs_fail(keys@, spent@, i + 1);
                }
                return Err(WalletError::UnknownKey);
            },
        };
        let signature: Signature = match Signature::sign_output(&hash, &key.private) {
            Some(signature) => signature,
            None => {
                proof {
                    lemma_signed_inputs_fail(keys@, spent@, i + 1);
                }
                return Err(WalletError::InvalidKey);
            },
        };
        inputs.push(TransactionInput { prev_transaction_output_hash: hash, signature });
        i += 1;
    }
    assert(spent@.take(i as int) =~= spent@);
    Ok(inputs)
}

/// An error in signing the first outputs is the error in signing all of them.
pub proof fn lemma_signed_inputs_fail(keys: Seq<LoadedKey>, spent: Seq<TransactionOutput>, k: int)
    requires
        0 <= k <= spent.len(),
        signed_inputs(keys, spent.take(k)).is_err(),
    ensures
        signed_inputs(keys, spent) == signed_inputs(keys, spent.take(k)),
    decreases spent.len() - k,
{
    if k < spent.len() {
        assert(spent.take(k + 1).drop_last() =~= spent.take(k));
        lemma_signed_inputs_fail(keys, spent, k + 1);
    } else {
        assert(spent.take(k) =~= spent);
    }
}

/// Draws a random identifier with `uuid::Uuid::new_v4` and takes it as a number.
/// Nothing is claimed of the result.
#[verifier::external_body]
fn fresh_id() -> u128 {
    uuid::Uuid::new_v4().as_u128()
}

/// Makes the payment of `amount` to `recipient` with the fee `fee` out of the unspent
/// outputs `utxos`, with the given identifiers for the output that pays and the output
/// that gives back what is left over.
pub fn build_transaction(
    keys: &Vec<LoadedKey>,
    utxos: &Vec<(bool, TransactionOutput)>,
    recipient: &PublicKey,
    amount: u64,
    fee: u64,
    payment_id: u128,
    change_id: u128,
) -> (r: Result<Transaction, WalletError>)
    ensures
        match r {
            Ok(tx) => spec_build_transaction(
                keys@,
                utxos@,
                *recipient,
                amount,
                fee,
                payment_id,
                change_id,
            ) == Ok::<TransactionView, WalletError>(tx@),
            Err(e) => spec_build_transaction(
                keys@,
                utxos@,
                *recipient,
                amount,
                fee,
                payment_id,
                change_id,
            ) == Err::<TransactionView, WalletError>(e),
        },
{
    if amount > u64::MAX - fee {
        return Err(WalletError::AmountTooLarge);
    }
    let total: u64 = amount + fee;
    let (spent, sum) = select_outputs(utxos, total);
    proof {
        lemma_selected_bound(utxos@, total as nat);
    }
    let inputs: Vec<TransactionInput> = match sign_inputs(keys, &spent) {
        Ok(inputs) => inputs,
        Err(e) => {
            return Err(e);
        },
    };
    if sum < total as u128 {
        return Err(WalletError::InsufficientFunds);
    }
    let mut outputs: Vec<TransactionOutput> = Vec::new();
    outputs.push(TransactionOutput { value: amount, unique_id: payment_id, pubkey: *recipient });
    if sum > total as u128 {
        assert(spent@.len() > 0) by {
            if spent@.len() == 0 {
                assert(output_total(spent@) == 0);
            }
        }
        outputs.push(
            TransactionOutput {
                value: (sum - total as u128) as u64,
                unique_id: change_id,
                pubkey: keys[0].public,
            },
        );
    }
    let tx = Transaction { inputs, outputs };
    assert(tx@.outputs =~= if sum > total {
        seq![
            TransactionOutput { value: amount, unique_id: payment_id, pubkey: *recipient },
            TransactionOutput {
                value: (sum - total) as u64,
                unique_id: change_id,
                pubkey: keys@[0].public,
            },
        ]
    } else {
        seq![TransactionOutput { value: amount, unique_id: payment_id, pubkey: *recipient }]
    });
    Ok(tx)
}

/// Makes the payment of `amount` to `recipient` with the fee `fee` out of the unspent
/// outputs `utxos`, with fresh identifiers for its outputs.
pub fn create_transaction(
    keys: &Vec<LoadedKey>,
    utxos: &Vec<(bool, TransactionOutput)>,
    recipient: &PublicKey,
    amount: u64,
    fee: u64,
) -> (r: Result<Transaction, WalletError>)
    ensures
        exists|payment_id: u128, change_id: u128|
            match r {
                Ok(tx) => #[trigger] spec_build_transaction(
                    keys@,
                    utxos@,
                    *recipient,
                    amount,
                    fee,
                    payment_id,
                    change_id,
                ) == Ok::<TransactionView, WalletError>(tx@),
                Err(e) => spec_build_transaction(
                    keys@,
                    utxos@,
                    *recipient,
                    amount,
                    fee,
                    payment_id,
                    change_id,
                ) == Err::<TransactionView, WalletError>(e),
            },
{
    let payment_id: u128 = fresh_id();
    let change_id: u128 = fresh_id();
    let r = build_transaction(keys, utxos, recipient, amount, fee, payment_id, change_id);
    assert(match r {
        Ok(tx) => spec_build_transaction(
            keys@,
            utxos@,
            *recipient,
            amount,
            fee,
            payment_id,
            change_id,
        ) == Ok::<TransactionView, WalletError>(tx@),
        Err(e) => spec_build_transaction(
            keys@,
            utxos@,
            *recipient,
            amount,
            fee,
            payment_id,
            change_id,
        ) == Err::<TransactionView, WalletError>(e),
    });
    r
}

/// A payment that was made pays out what it spends less the fee: the fee is what is
/// left for the miner.
pub proof fn lemma_payment_leaves_the_fee(
    keys: Seq<LoadedKey>,
    utxos: Seq<(bool, TransactionOutput)>,
    recipient: PublicKey,
    amount: u64,
    fee: u64,
    payment_id: u128,
    change_id: u128,
)
    requires
        spec_build_transaction(keys, utxos, recipient, amount, fee, payment_id, change_id).is_ok(),
    ensures
        ({
            let tx = spec_build_transaction(
                keys,
                utxos,
                recipient,
                amount,
                fee,
                payment_id,
                change_id,
            )->Ok_0;
            &&& tx.outputs[0].value == amount
            &&& tx.outputs[0].pubkey == recipient
            &&& output_total(tx.outputs) + fee == output_total(selected(utxos, (amount + fee) as nat))
        }),
{
    let total: nat = (amount + fee) as nat;
    let spent = selected(utxos, total);
    lemma_selected_bound(utxos, total);
    let tx = spec_build_transaction(keys, utxos, recipient, amount, fee, payment_id, change_id)->Ok_0;
    let payment = TransactionOutput { value: amount, unique_id: payment_id, pubkey: recipient };
    lemma_output_total_push(Seq::empty(), payment);
    assert(Seq::<TransactionOutput>::empty().push(payment) =~= seq![payment]);
    if output_total(spent) > total {
        let change = TransactionOutput {
            value: (output_total(spent) - total) as u64,
            unique_id: change_id,
            pubkey: keys[0].public,
        };
        lemma_output_total_push(seq![payment], change);
        assert(seq![payment].push(change) =~= seq![payment, change]);
    }
}

} // verus!
