//! Transactions, their inputs and outputs, and what they hash to.

use crate::codec::{
    dec_array_items, dec_array_of, dec_bytes, dec_items, dec_u128, dec_u256, dec_uint, enc_array,
    enc_bytes, enc_items, enc_u128, enc_u256, enc_uint, get_array, get_array_of, get_bytes_start,
    get_u128, get_u256, get_uint, head, lemma_array_of_round_trip, lemma_array_round_trip,
    lemma_bytes_round_trip, lemma_concat_assoc, lemma_dec_items_fails, lemma_dec_items_step, lemma_enc_items_step,
    lemma_occurs_split, lemma_u128_round_trip, lemma_u256_round_trip,
    lemma_uint_round_trip, occurs, put_bytes, put_head, put_u128, put_u256, put_uint, MAJOR_ARRAY,
};
use crate::crypto::{
    lemma_public_key_round_trip, lemma_signature_round_trip, PublicKey, Signature,
};
use crate::error::BtcError;
use vstd::prelude::*;

verus! {

/// A reference to an earlier output, with the owner's signature over that output's hash.
#[derive(Clone, Copy, Debug, PartialEq, Eq, Structural)]
pub struct TransactionInput {
    pub prev_transaction_output_hash: crate::sha256::Hash,
    pub signature: Signature,
}

/// An amount made over to a public key. `unique_id` sets apart outputs that are
/// otherwise the same.
#[derive(Clone, Copy, Debug, PartialEq, Eq, Structural)]
pub struct TransactionOutput {
    pub value: u64,
    pub unique_id: u128,
    pub pubkey: PublicKey,
}

/// A transaction. One without inputs is a coinbase.
#[derive(Debug, PartialEq, Eq)]
pub struct Transaction {
    pub inputs: Vec<TransactionInput>,
    pub outputs: Vec<TransactionOutput>,
}

/// A transaction as a mathematical value.
pub struct TransactionView {
    pub inputs: Seq<TransactionInput>,
    pub outputs: Seq<TransactionOutput>,
}

impl View for Transaction {
    type V = TransactionView;

    open spec fn view(&self) -> TransactionView {
        TransactionView { inputs: self.inputs@, outputs: self.outputs@ }
    }
}

/// The transactions of a list as mathematical values.
pub open spec fn views(txs: Seq<Transaction>) -> Seq<TransactionView> {
    Seq::new(txs.len(), |i: int| txs[i]@)
}

/// The encoding of an input: the hash it refers to and its signature.
pub open spec fn enc_input(input: TransactionInput) -> Seq<u8> {
    head(MAJOR_ARRAY, 2) + enc_u256(input.prev_transaction_output_hash.value) + enc_bytes(
        input.signature.spec_bytes(),
    )
}

/// The encoding of an output: its value, its identifier and its key.
pub open spec fn enc_output(output: TransactionOutput) -> Seq<u8> {
    head(MAJOR_ARRAY, 3) + enc_uint(output.value) + enc_u128(output.unique_id) + enc_bytes(
        output.pubkey.spec_sec1(),
    )
}

/// The encoding of inputs, as a function.
pub open spec fn input_encoder() -> spec_fn(TransactionInput) -> Seq<u8> {
    |i: TransactionInput| enc_input(i)
}

/// The encoding of outputs, as a function.
pub open spec fn output_encoder() -> spec_fn(TransactionOutput) -> Seq<u8> {
    |o: TransactionOutput| enc_output(o)
}

/// The encoding of a transaction: its inputs, then its outputs.
pub open spec fn enc_transaction(tx: TransactionView) -> Seq<u8> {
    head(MAJOR_ARRAY, 2) + enc_array(tx.inputs, input_encoder()) + enc_array(
        tx.outputs,
        output_encoder(),
    )
}

/// The sum of the values of a sequence of outputs.
pub open spec fn output_total(outputs: Seq<TransactionOutput>) -> nat
    decreases outputs.len(),
{
    if outputs.len() == 0 {
        0
    } else {
        output_total(outputs.drop_last()) + outputs.last().value as nat
    }
}

/// A sum of outputs is at most their number times the largest value.
pub proof fn lemma_output_total_bound(outputs: Seq<TransactionOutput>)
    ensures
        output_total(outputs) <= outputs.len() * 0xFFFF_FFFF_FFFF_FFFF,
    decreases outputs.len(),
{
    if outputs.len() > 0 {
        lemma_output_total_bound(outputs.drop_last());
    }
}

/// The sum of outputs with one more output.
pub proof fn lemma_output_total_push(outputs: Seq<TransactionOutput>, output: TransactionOutput)
    ensures
        output_total(outputs.push(output)) == output_total(outputs) + output.value,
{
    assert(outputs.push(output).drop_last() =~= outputs);
}

impl TransactionView {
    /// The hash of the transaction: that of its encoding.
    #[verifier::opaque]
    pub open spec fn spec_hash(self) -> crate::sha256::Hash {
        crate::sha256::Hash::of_bytes(enc_transaction(self))
    }

    /// Whether the transaction is a coinbase: it has no inputs.
    pub open spec fn is_coinbase(self) -> bool {
        self.inputs.len() == 0
    }
}

impl TransactionInput {
    /// Appends the encoding of the input.
    pub fn encode(&self, out: &mut Vec<u8>)
        ensures
            final(out)@ == old(out)@ + enc_input(*self),
    {
        let ghost base = out@;
        put_head(out, MAJOR_ARRAY, 2);
        put_u256(out, &self.prev_transaction_output_hash.value);
        proof {
            lemma_concat_assoc(
                base,
                head(MAJOR_ARRAY, 2),
                enc_u256(self.prev_transaction_output_hash.value),
            );
        }
        let signature: Vec<u8> = self.signature.to_bytes();
        put_bytes(out, signature.as_slice());
        proof {
            lemma_concat_assoc(
                base,
                head(MAJOR_ARRAY, 2) + enc_u256(self.prev_transaction_output_hash.value),
                enc_bytes(self.signature.spec_bytes()),
            );
        }
    }
}

impl TransactionOutput {
    /// The hash of the output: that of its encoding. It is the key of the output in the
    /// index of unspent outputs.
    #[verifier::opaque]
    pub open spec fn spec_hash(self) -> crate::sha256::Hash {
        crate::sha256::Hash::of_bytes(enc_output(self))
    }

    /// Appends the encoding of the output.
    pub fn encode(&self, out: &mut Vec<u8>)
        ensures
            final(out)@ == old(out)@ + enc_output(*self),
    {
        let ghost base = out@;
        put_head(out, MAJOR_ARRAY, 3);
        put_uint(out, self.value);
        proof {
            lemma_concat_assoc(base, head(MAJOR_ARRAY, 3), enc_uint(self.value));
        }
        put_u128(out, self.unique_id);
        proof {
            lemma_concat_assoc(
                base,
                head(MAJOR_ARRAY, 3) + enc_uint(self.value),
                enc_u128(self.unique_id),
            );
        }
        let key: Vec<u8> = self.pubkey.to_sec1();
        put_bytes(out, key.as_slice());
        proof {
            lemma_concat_assoc(
                base,
                head(MAJOR_ARRAY, 3) + enc_uint(self.value) + enc_u128(self.unique_id),
                enc_bytes(self.pubkey.spec_sec1()),
            );
        }
    }

    /// The hash of the output.
    pub fn hash(&self) -> (h: crate::sha256::Hash)
        ensures
            h == self.spec_hash(),
    {
        reveal(TransactionOutput::spec_hash);
        let mut bytes: Vec<u8> = Vec::new();
        self.encode(&mut bytes);
        assert(bytes@ =~= enc_output(*self));
        crate::sha256::Hash::hash_bytes(bytes.as_slice())
    }
}

impl Clone for Transaction {
    fn clone(&self) -> (r: Self)
        ensures
            r@ == self@,
    {
        let mut inputs: Vec<TransactionInput> = Vec::new();
        let mut i: usize = 0;
        while i < self.inputs.len()
            invariant
                0 <= i <= self.inputs.len(),
                inputs@ == self.inputs@.take(i as int),
            decreases self.inputs.len() - i,
        {
            inputs.push(self.inputs[i]);
            assert(self.inputs@.take(i + 1) =~= self.inputs@.take(i as int).push(
                self.inputs@[i as int],
            ));
            i += 1;
        }
        assert(self.inputs@.take(i as int) =~= self.inputs@);
        let mut outputs: Vec<TransactionOutput> = Vec::new();
        let mut j: usize = 0;
        while j < self.outputs.len()
            invariant
                0 <= j <= self.outputs.len(),
                outputs@ == self.outputs@.take(j as int),
            decreases self.outputs.len() - j,
        {
            outputs.push(self.outputs[j]);
            assert(self.outputs@.take(j + 1) =~= self.outputs@.take(j as int).push(
                self.outputs@[j as int],
            ));
            j += 1;
        }
        assert(self.outputs@.take(j as int) =~= self.outputs@);
        Transaction { inputs, outputs }
    }
}

impl Transaction {
    /// A transaction with the given inputs and outputs.
    pub fn new(inputs: Vec<TransactionInput>, outputs: Vec<TransactionOutput>) -> (tx: Transaction)
        ensures
            tx.inputs == inputs,
            tx.outputs == outputs,
    {
        Transaction { inputs, outputs }
    }

    /// Appends the encoding of the transaction.
    pub fn encode(&self, out: &mut Vec<u8>)
        ensures
            final(out)@ == old(out)@ + enc_transaction(self@),
    {
        let ghost base = out@;
        put_head(out, MAJOR_ARRAY, 2);
        encode_inputs(&self.inputs, out);
        proof {
            lemma_concat_assoc(
                base,
                head(MAJOR_ARRAY, 2),
                enc_array(self.inputs@, input_encoder()),
            );
        }
        encode_outputs(&self.outputs, out);
        proof {
            lemma_concat_assoc(
                base,
                head(MAJOR_ARRAY, 2) + enc_array(self.inputs@, input_encoder()),
                enc_array(self.outputs@, output_encoder()),
            );
        }
    }

    /// The encoding of the transaction.
    pub fn save(&self) -> (bytes: Vec<u8>)
        ensures
            bytes@ == enc_transaction(self@),
    {
        let mut bytes: Vec<u8> = Vec::new();
        self.encode(&mut bytes);
        assert(bytes@ =~= enc_transaction(self@));
        bytes
    }

    /// The hash of the transaction.
    pub fn hash(&self) -> (h: crate::sha256::Hash)
        ensures
            h == self@.spec_hash(),
    {
        reveal(TransactionView::spec_hash);
        let bytes: Vec<u8> = self.save();
        crate::sha256::Hash::hash_bytes(bytes.as_slice())
    }

    /// The sum of the values of the outputs.
    pub fn output_value(&self) -> (sum: u128)
        ensures
            sum == output_total(self.outputs@),
    {
        sum_outputs(&self.outputs)
    }
}

/// Appends the encoding of an array of inputs.
fn encode_inputs(inputs: &Vec<TransactionInput>, out: &mut Vec<u8>)
    ensures
        final(out)@ == old(out)@ + enc_array(inputs@, input_encoder()),
{
    put_head(out, MAJOR_ARRAY, inputs.len() as u64);
    let ghost start = out@;
    let mut i: usize = 0;
    while i < inputs.len()
        invariant
            0 <= i <= inputs.len(),
            out@ == start + enc_items(inputs@.take(i as int), input_encoder()),
        decreases inputs.len() - i,
    {
        inputs[i].encode(out);
        proof {
            lemma_enc_items_step(start, inputs@, i as int, input_encoder());
        }
        i += 1;
    }
    proof {
        assert(inputs@.take(i as int) =~= inputs@);
        lemma_concat_assoc(
            old(out)@,
            head(MAJOR_ARRAY, inputs.len() as u64),
            enc_items(inputs@, input_encoder()),
        );
    }
}

/// Appends the encoding of an array of outputs.
fn encode_outputs(outputs: &Vec<TransactionOutput>, out: &mut Vec<u8>)
    ensures
        final(out)@ == old(out)@ + enc_array(outputs@, output_encoder()),
{
    put_head(out, MAJOR_ARRAY, outputs.len() as u64);
    let ghost start = out@;
    let mut i: usize = 0;
    while i < outputs.len()
        invariant
            0 <= i <= outputs.len(),
            out@ == start + enc_items(outputs@.take(i as int), output_encoder()),
        decreases outputs.len() - i,
    {
        outputs[i].encode(out);
        proof {
            lemma_enc_items_step(start, outputs@, i as int, output_encoder());
        }
        i += 1;
    }
    proof {
        assert(outputs@.take(i as int) =~= outputs@);
        lemma_concat_assoc(
            old(out)@,
            head(MAJOR_ARRAY, outputs.len() as u64),
            enc_items(outputs@, output_encoder()),
        );
    }
}

/// The sum of the values of some outputs.
pub fn sum_outputs(outputs: &Vec<TransactionOutput>) -> (sum: u128)
    ensures
        sum == output_total(outputs@),
{
    let mut sum: u128 = 0;
    let mut i: usize = 0;
    while i < outputs.len()
        invariant
            0 <= i <= outputs.len(),
            sum == output_total(outputs@.take(i as int)),
        decreases outputs.len() - i,
    {
        proof {
            lemma_output_total_bound(outputs@.take(i as int));
            lemma_output_total_push(outputs@.take(i as int), outputs@[i as int]);
            assert(outputs@.take(i + 1) =~= outputs@.take(i as int).push(outputs@[i as int]));
        }
        sum = sum + outputs[i].value as u128;
        i += 1;
    }
    assert(outputs@.take(i as int) =~= outputs@);
    sum
}

/// Reads an input.
#[verifier::opaque]
pub open spec fn dec_input(s: Seq<u8>, at: int) -> Option<(TransactionInput, int)> {
    match dec_array_of(s, at, 2) {
        Some(at1) => match dec_u256(s, at1) {
            Some((hash, at2)) => match dec_bytes(s, at2, 64) {
                Some((bytes, at3)) => match Signature::spec_from_bytes(bytes) {
                    Some(signature) => Some(
                        (
                            TransactionInput {
                                prev_transaction_output_hash: crate::sha256::Hash { value: hash },
                                signature,
                            },
                            at3,
                        ),
                    ),
                    None => None,
                },
                None => None,
            },
            None => None,
        },
        None => None,
    }
}

/// Reads an output.
#[verifier::opaque]
pub open spec fn dec_output(s: Seq<u8>, at: int) -> Option<(TransactionOutput, int)> {
    match dec_array_of(s, at, 3) {
        Some(at1) => match dec_uint(s, at1) {
            Some((value, at2)) => match dec_u128(s, at2) {
                Some((unique_id, at3)) => match dec_bytes(s, at3, 33) {
                    Some((bytes, at4)) => match PublicKey::spec_from_sec1(bytes) {
                        Some(pubkey) => Some((TransactionOutput { value, unique_id, pubkey }, at4)),
                        None => None,
                    },
                    None => None,
                },
                None => None,
            },
            None => None,
        },
        None => None,
    }
}

/// The reading of inputs, as a function.
pub open spec fn input_decoder() -> spec_fn(Seq<u8>, int) -> Option<(TransactionInput, int)> {
    |s: Seq<u8>, at: int| dec_input(s, at)
}

/// The reading of outputs, as a function.
pub open spec fn output_decoder() -> spec_fn(Seq<u8>, int) -> Option<(TransactionOutput, int)> {
    |s: Seq<u8>, at: int| dec_output(s, at)
}

/// Reads a transaction.
#[verifier::opaque]
pub open spec fn dec_transaction(s: Seq<u8>, at: int) -> Option<(TransactionView, int)> {
    match dec_array_of(s, at, 2) {
        Some(at1) => match dec_array_items(s, at1, input_decoder()) {
            Some((inputs, at2)) => match dec_array_items(s, at2, output_decoder()) {
                Some((outputs, at3)) => Some((TransactionView { inputs, outputs }, at3)),
                None => None,
            },
            None => None,
        },
        None => None,
    }
}

/// The transaction that some bytes stand for, if they are the encoding of one and
/// nothing more.
pub open spec fn spec_load_transaction(bytes: Seq<u8>) -> Option<TransactionView> {
    match dec_transaction(bytes, 0) {
        Some((tx, next)) => if next == bytes.len() {
            Some(tx)
        } else {
            None
        },
        None => None,
    }
}

/// Reading an input that was written gives it back.
pub proof fn lemma_input_round_trip(s: Seq<u8>, at: int, input: TransactionInput)
    requires
        occurs(s, at, enc_input(input)),
    ensures
        dec_input(s, at) == Some((input, at + enc_input(input).len())),
{
    reveal(dec_input);
    let a = head(MAJOR_ARRAY, 2);
    let b = enc_u256(input.prev_transaction_output_hash.value);
    let c = enc_bytes(input.signature.spec_bytes());
    lemma_occurs_split(s, at, a + b, c);
    lemma_occurs_split(s, at, a, b);
    lemma_array_of_round_trip(s, at, 2);
    lemma_u256_round_trip(s, at + a.len(), input.prev_transaction_output_hash.value);
    lemma_signature_round_trip(input.signature);
    lemma_bytes_round_trip(s, at + a.len() + b.len(), input.signature.spec_bytes());
}

/// Reading an output that was written gives it back.
pub proof fn lemma_output_round_trip(s: Seq<u8>, at: int, output: TransactionOutput)
    requires
        occurs(s, at, enc_output(output)),
    ensures
        dec_output(s, at) == Some((output, at + enc_output(output).len())),
{
    reveal(dec_output);
    let a = head(MAJOR_ARRAY, 3);
    let b = enc_uint(output.value);
    let c = enc_u128(output.unique_id);
    let d = enc_bytes(output.pubkey.spec_sec1());
    lemma_occurs_split(s, at, a + b + c, d);
    lemma_occurs_split(s, at, a + b, c);
    lemma_occurs_split(s, at, a, b);
    lemma_array_of_round_trip(s, at, 3);
    lemma_uint_round_trip(s, at + a.len(), output.value);
    lemma_u128_round_trip(s, at + a.len() + b.len(), output.unique_id);
    lemma_public_key_round_trip(output.pubkey);
    lemma_bytes_round_trip(s, at + a.len() + b.len() + c.len(), output.pubkey.spec_sec1());
}

/// Reading a transaction that was written gives it back.
pub proof fn lemma_transaction_round_trip_at(s: Seq<u8>, at: int, tx: TransactionView)
    requires
        tx.inputs.len() <= u64::MAX,
        tx.outputs.len() <= u64::MAX,
        occurs(s, at, enc_transaction(tx)),
    ensures
        dec_transaction(s, at) == Some((tx, at + enc_transaction(tx).len())),
{
    reveal(dec_transaction);
    let a = head(MAJOR_ARRAY, 2);
    let b = enc_array(tx.inputs, input_encoder());
    let c = enc_array(tx.outputs, output_encoder());
    lemma_occurs_split(s, at, a + b, c);
    lemma_occurs_split(s, at, a, b);
    lemma_array_of_round_trip(s, at, 2);
    assert forall|x: TransactionInput, p: int| #[trigger]
        occurs(s, p, input_encoder()(x)) implies input_decoder()(s, p) == Some(
        (x, p + input_encoder()(x).len()),
    ) by {
        lemma_input_round_trip(s, p, x);
    }
    lemma_array_round_trip(s, at + a.len(), tx.inputs, input_encoder(), input_decoder());
    assert forall|x: TransactionOutput, p: int| #[trigger]
        occurs(s, p, output_encoder()(x)) implies output_decoder()(s, p) == Some(
        (x, p + output_encoder()(x).len()),
    ) by {
        lemma_output_round_trip(s, p, x);
    }
    lemma_array_round_trip(
        s,
        at + a.len() + b.len(),
        tx.outputs,
        output_encoder(),
        output_decoder(),
    );
}

/// Outputs with the same encoding are the same output: outputs that differ, if only in
/// their identifiers, are hashed from different bytes.
pub proof fn lemma_output_encoding_injective(a: TransactionOutput, b: TransactionOutput)
    requires
        enc_output(a) == enc_output(b),
    ensures
        a == b,
{
    let s = enc_output(a);
    crate::codec::lemma_occurs_whole(s);
    lemma_output_round_trip(s, 0, a);
    lemma_output_round_trip(s, 0, b);
}

/// Transactions with the same encoding are the same transaction.
pub proof fn lemma_transaction_encoding_injective(a: TransactionView, b: TransactionView)
    requires
        a.inputs.len() <= u64::MAX,
        a.outputs.len() <= u64::MAX,
        b.inputs.len() <= u64::MAX,
        b.outputs.len() <= u64::MAX,
        enc_transaction(a) == enc_transaction(b),
    ensures
        a == b,
{
    let s = enc_transaction(a);
    crate::codec::lemma_occurs_whole(s);
    lemma_transaction_round_trip_at(s, 0, a);
    lemma_transaction_round_trip_at(s, 0, b);
}

/// Loading what was saved gives back the transaction.
pub proof fn lemma_transaction_round_trip(tx: TransactionView)
    requires
        tx.inputs.len() <= u64::MAX,
        tx.outputs.len() <= u64::MAX,
    ensures
        spec_load_transaction(enc_transaction(tx)) == Some(tx),
{
    let s = enc_transaction(tx);
    crate::codec::lemma_occurs_whole(s);
    lemma_transaction_round_trip_at(s, 0, tx);
}

/// Reads an input.
pub fn decode_input(s: &[u8], at: usize) -> (r: Option<(TransactionInput, usize)>)
    ensures
        match r {
            Some((input, next)) => dec_input(s@, at as int) == Some((input, next as int)) && next
                <= s@.len(),
            None => dec_input(s@, at as int).is_none(),
        },
{
    reveal(dec_input);
    let total: usize = s.len();
    let at1: usize = match get_array_of(s, at, 2) {
        Some(p) => p,
        None => {
            return None;
        },
    };
    let (hash, at2) = match get_u256(s, at1) {
        Some(found) => found,
        None => {
            return None;
        },
    };
    let start: usize = match get_bytes_start(s, at2, 64) {
        Some(p) => p,
        None => {
            return None;
        },
    };
    assert(start + 64 <= total);
    let bytes: &[u8] = vstd::slice::slice_subrange(s, start, start + 64);
    match Signature::from_bytes(bytes) {
        Some(signature) => Some(
            (
                TransactionInput {
                    prev_transaction_output_hash: crate::sha256::Hash { value: hash },
                    signature,
                },
                start + 64,
            ),
        ),
        None => None,
    }
}

/// Reads an output.
pub fn decode_output(s: &[u8], at: usize) -> (r: Option<(TransactionOutput, usize)>)
    ensures
        match r {
            Some((output, next)) => dec_output(s@, at as int) == Some((output, next as int))
                && next <= s@.len(),
            None => dec_output(s@, at as int).is_none(),
        },
{
    reveal(dec_output);
    let total: usize = s.len();
    let at1: usize = match get_array_of(s, at, 3) {
        Some(p) => p,
        None => {
            return None;
        },
    };
    let (value, at2) = match get_uint(s, at1) {
        Some(found) => found,
        None => {
            return None;
        },
    };
    let (unique_id, at3) = match get_u128(s, at2) {
        Some(found) => found,
        None => {
            return None;
        },
    };
    let start: usize = match get_bytes_start(s, at3, 33) {
        Some(p) => p,
        None => {
            return None;
        },
    };
    assert(start + 33 <= total);
    let bytes: &[u8] = vstd::slice::slice_subrange(s, start, start + 33);
    match PublicKey::from_sec1(bytes) {
        Some(pubkey) => Some((TransactionOutput { value, unique_id, pubkey }, start + 33)),
        None => None,
    }
}

/// Reads an array of inputs.
fn decode_inputs(s: &[u8], at: usize) -> (r: Option<(Vec<TransactionInput>, usize)>)
    ensures
        match r {
            Some((inputs, next)) => dec_array_items(s@, at as int, input_decoder()) == Some(
                (inputs@, next as int),
            ) && next <= s@.len(),
            None => dec_array_items(s@, at as int, input_decoder()).is_none(),
        },
{
    let (count, start) = match get_array(s, at) {
        Some(found) => found,
        None => {
            return None;
        },
    };
    let mut inputs: Vec<TransactionInput> = Vec::new();
    let mut place: usize = start;
    let mut k: u64 = 0;
    while k < count
        invariant
            0 <= k <= count,
            place <= s@.len(),
            crate::codec::dec_array(s@, at as int) == Some((count, start as int)),
            dec_items(s@, start as int, k as nat, input_decoder()) == Some(
                (inputs@, place as int),
            ),
        decreases count - k,
    {
        proof {
            lemma_dec_items_step(s@, start as int, k as nat, input_decoder());
        }
        match decode_input(s, place) {
            Some((input, next)) => {
                inputs.push(input);
                place = next;
            },
            None => {
                proof {
                    lemma_dec_items_fails(
                        s@,
                        start as int,
                        (k + 1) as nat,
                        count as nat,
                        input_decoder(),
                    );
                }
                return None;
            },
        }
        k += 1;
    }
    Some((inputs, place))
}

/// Reads an array of outputs.
fn decode_outputs(s: &[u8], at: usize) -> (r: Option<(Vec<TransactionOutput>, usize)>)
    ensures
        match r {
            Some((outputs, next)) => dec_array_items(s@, at as int, output_decoder()) == Some(
                (outputs@, next as int),
            ) && next <= s@.len(),
            None => dec_array_items(s@, at as int, output_decoder()).is_none(),
        },
{
    let (count, start) = match get_array(s, at) {
        Some(found) => found,
        None => {
            return None;
        },
    };
    let mut outputs: Vec<TransactionOutput> = Vec::new();
    let mut place: usize = start;
    let mut k: u64 = 0;
    while k < count
        invariant
            0 <= k <= count,
            place <= s@.len(),
            crate::codec::dec_array(s@, at as int) == Some((count, start as int)),
            dec_items(s@, start as int, k as nat, output_decoder()) == Some(
                (outputs@, place as int),
            ),
        decreases count - k,
    {
        proof {
            lemma_dec_items_step(s@, start as int, k as nat, output_decoder());
        }
        match decode_output(s, place) {
            Some((output, next)) => {
                outputs.push(output);
                place = next;
            },
            None => {
                proof {
                    lemma_dec_items_fails(
                        s@,
                        start as int,
                        (k + 1) as nat,
                        count as nat,
                        output_decoder(),
                    );
                }
                return None;
            },
        }
        k += 1;
    }
    Some((outputs, place))
}

impl Transaction {
    /// Reads a transaction at the place `at`.
    pub fn decode(s: &[u8], at: usize) -> (r: Option<(Transaction, usize)>)
        ensures
            match r {
                Some((tx, next)) => dec_transaction(s@, at as int) == Some((tx@, next as int))
                    && next <= s@.len(),
                None => dec_transaction(s@, at as int).is_none(),
            },
    {
        reveal(dec_transaction);
        let at1: usize = match get_array_of(s, at, 2) {
            Some(p) => p,
            None => {
                return None;
            },
        };
        let (inputs, at2) = match decode_inputs(s, at1) {
            Some(found) => found,
            None => {
                return None;
            },
        };
        let (outputs, at3) = match decode_outputs(s, at2) {
            Some(found) => found,
            None => {
                return None;
            },
        };
        Some((Transaction { inputs, outputs }, at3))
    }

    /// The transaction that `bytes` stand for; `IoError` where they are not the
    /// encoding of a transaction and nothing more.
    pub fn load(bytes: &[u8]) -> (r: Result<Transaction, BtcError>)
        ensures
            match r {
                Ok(tx) => spec_load_transaction(bytes@) == Some(tx@),
                Err(e) => e == BtcError::IoError && spec_load_transaction(bytes@).is_none(),
            },
    {
        match Transaction::decode(bytes, 0) {
            Some((tx, next)) => if next == bytes.len() {
                Ok(tx)
            } else {
                Err(BtcError::IoError)
            },
            None => Err(BtcError::IoError),
        }
    }
}

} // verus!
