//! The messages of the node protocol that the chain answers.

use crate::codec::{
    dec_array, dec_array_items, dec_array_of, dec_bool, dec_bytes, dec_items, dec_uint, enc_array,
    enc_bool, enc_bytes, enc_items, enc_uint, get_array, get_array_of, get_bool, get_bytes_start,
    get_uint, head, lemma_array_of_round_trip, lemma_array_round_trip, lemma_bool_round_trip,
    lemma_bytes_round_trip, lemma_concat_assoc, lemma_dec_items_fails, lemma_dec_items_step,
    lemma_enc_items_step, lemma_occurs_split, lemma_occurs_whole, lemma_uint_round_trip, occurs,
    put_bool, put_bytes, put_head, put_uint, MAJOR_ARRAY,
};
use crate::crypto::{lemma_public_key_round_trip, PublicKey};
use crate::error::BtcError;
use crate::types::transaction::{
    dec_output, dec_transaction, decode_output, enc_output, enc_transaction,
    lemma_output_round_trip, lemma_transaction_round_trip_at, TransactionView,
};
use crate::time::Timestamp;
use crate::types::blockchain::{submission_outcome, Blockchain};
use crate::types::transaction::{Transaction, TransactionOutput};
use crate::types::utxo::owned_by;
use vstd::prelude::*;

verus! {

/// A message between a node and its peers or wallets.
#[derive(Debug)]
pub enum Message {
    /// Asks for the unspent outputs that are made over to a key.
    FetchUTXOs(PublicKey),
    /// The unspent outputs that were asked for, each with its reservation flag.
    UTXOs(Vec<(TransactionOutput, bool)>),
    /// Hands in a transaction for the pool.
    SubmitTransaction(Transaction),
}

/// A message as a mathematical value.
pub enum MessageView {
    FetchUTXOs(PublicKey),
    UTXOs(Seq<(TransactionOutput, bool)>),
    SubmitTransaction(TransactionView),
}

impl View for Message {
    type V = MessageView;

    open spec fn view(&self) -> MessageView {
        match *self {
            Message::FetchUTXOs(key) => MessageView::FetchUTXOs(key),
            Message::UTXOs(found) => MessageView::UTXOs(found@),
            Message::SubmitTransaction(tx) => MessageView::SubmitTransaction(tx@),
        }
    }
}

/// The number that stands for a request for unspent outputs.
pub const KIND_FETCH_UTXOS: u64 = 0;

/// The number that stands for a list of unspent outputs.
pub const KIND_UTXOS: u64 = 1;

/// The number that stands for a transaction that is handed in.
pub const KIND_SUBMIT_TRANSACTION: u64 = 2;

/// The encoding of an unspent output with its reservation flag.
pub open spec fn enc_found(item: (TransactionOutput, bool)) -> Seq<u8> {
    head(MAJOR_ARRAY, 2) + enc_output(item.0) + enc_bool(item.1)
}

/// The encoding of unspent outputs with their flags, as a function.
pub open spec fn found_encoder() -> spec_fn((TransactionOutput, bool)) -> Seq<u8> {
    |item: (TransactionOutput, bool)| enc_found(item)
}

/// The encoding of a message: the number of its kind, then what it carries.
pub open spec fn enc_message(message: MessageView) -> Seq<u8> {
    match message {
        MessageView::FetchUTXOs(key) => head(MAJOR_ARRAY, 2) + enc_uint(KIND_FETCH_UTXOS)
            + enc_bytes(key.spec_sec1()),
        MessageView::UTXOs(found) => head(MAJOR_ARRAY, 2) + enc_uint(KIND_UTXOS) + enc_array(
            found,
            found_encoder(),
        ),
        MessageView::SubmitTransaction(tx) => head(MAJOR_ARRAY, 2) + enc_uint(
            KIND_SUBMIT_TRANSACTION,
        ) + enc_transaction(tx),
    }
}

/// Reads an unspent output with its reservation flag.
#[verifier::opaque]
pub open spec fn dec_found(s: Seq<u8>, at: int) -> Option<((TransactionOutput, bool), int)> {
    match dec_array_of(s, at, 2) {
        Some(at1) => match dec_output(s, at1) {
            Some((output, at2)) => match dec_bool(s, at2) {
                Some((flag, at3)) => Some(((output, flag), at3)),
                None => None,
            },
            None => None,
        },
        None => None,
    }
}

/// The reading of unspent outputs with their flags, as a function.
pub open spec fn found_decoder() -> spec_fn(Seq<u8>, int) -> Option<
    ((TransactionOutput, bool), int),
> {
    |s: Seq<u8>, at: int| dec_found(s, at)
}

/// Reads a message.
#[verifier::opaque]
pub open spec fn dec_message(s: Seq<u8>, at: int) -> Option<(MessageView, int)> {
    match dec_array_of(s, at, 2) {
        Some(at1) => match dec_uint(s, at1) {
            Some((kind, at2)) => if kind == KIND_FETCH_UTXOS {
                match dec_bytes(s, at2, 33) {
                    Some((bytes, at3)) => match PublicKey::spec_from_sec1(bytes) {
                        Some(key) => Some((MessageView::FetchUTXOs(key), at3)),
                        None => None,
                    },
                    None => None,
                }
            } else if kind == KIND_UTXOS {
                match dec_array_items(s, at2, found_decoder()) {
                    Some((found, at3)) => Some((MessageView::UTXOs(found), at3)),
                    None => None,
                }
            } else if kind == KIND_SUBMIT_TRANSACTION {
                match dec_transaction(s, at2) {
                    Some((tx, at3)) => Some((MessageView::SubmitTransaction(tx), at3)),
                    None => None,
                }
            } else {
                None
            },
            None => None,
        },
        None => None,
    }
}

/// The message that some bytes stand for, if they are the encoding of one and nothing
/// more.
pub open spec fn spec_load_message(bytes: Seq<u8>) -> Option<MessageView> {
    match dec_message(bytes, 0) {
        Some((message, next)) => if next == bytes.len() {
            Some(message)
        } else {
            None
        },
        None => None,
    }
}

/// Whether the lists of a message are short enough to be written: each has fewer than
/// `2^64` items. Every message in memory is.
pub open spec fn message_fits(message: MessageView) -> bool {
    match message {
        MessageView::FetchUTXOs(_) => true,
        MessageView::UTXOs(found) => found.len() <= u64::MAX,
        MessageView::SubmitTransaction(tx) => tx.inputs.len() <= u64::MAX && tx.outputs.len()
            <= u64::MAX,
    }
}

/// Reading an unspent output with its flag that was written gives it back.
pub proof fn lemma_found_round_trip(s: Seq<u8>, at: int, item: (TransactionOutput, bool))
    requires
        occurs(s, at, enc_found(item)),
    ensures
        dec_found(s, at) == Some((item, at + enc_found(item).len())),
{
    reveal(dec_found);
    let a = head(MAJOR_ARRAY, 2);
    let b = enc_output(item.0);
    let c = enc_bool(item.1);
    lemma_occurs_split(s, at, a + b, c);
    lemma_occurs_split(s, at, a, b);
    lemma_array_of_round_trip(s, at, 2);
    lemma_output_round_trip(s, at + a.len(), item.0);
    lemma_bool_round_trip(s, at + a.len() + b.len(), item.1);
}

/// Reading a message that was written gives it back.
pub proof fn lemma_message_round_trip_at(s: Seq<u8>, at: int, message: MessageView)
    requires
        message_fits(message),
        occurs(s, at, enc_message(message)),
    ensures
        dec_message(s, at) == Some((message, at + enc_message(message).len())),
{
    reveal(dec_message);
    let a = head(MAJOR_ARRAY, 2);
    match message {
        MessageView::FetchUTXOs(key) => {
            let b = enc_uint(KIND_FETCH_UTXOS);
            let c = enc_bytes(key.spec_sec1());
            lemma_occurs_split(s, at, a + b, c);
            lemma_occurs_split(s, at, a, b);
            lemma_array_of_round_trip(s, at, 2);
            lemma_uint_round_trip(s, at + a.len(), KIND_FETCH_UTXOS);
            lemma_public_key_round_trip(key);
            lemma_bytes_round_trip(s, at + a.len() + b.len(), key.spec_sec1());
        },
        MessageView::UTXOs(found) => {
            let b = enc_uint(KIND_UTXOS);
            let c = enc_array(found, found_encoder());
            lemma_occurs_split(s, at, a + b, c);
            lemma_occurs_split(s, at, a, b);
            lemma_array_of_round_trip(s, at, 2);
            lemma_uint_round_trip(s, at + a.len(), KIND_UTXOS);
            assert forall|x: (TransactionOutput, bool), p: int| #[trigger]
                occurs(s, p, found_encoder()(x)) implies found_decoder()(s, p) == Some(
                (x, p + found_encoder()(x).len()),
            ) by {
                lemma_found_round_trip(s, p, x);
            }
            lemma_array_round_trip(
                s,
                at + a.len() + b.len(),
                found,
                found_encoder(),
                found_decoder(),
            );
        },
        MessageView::SubmitTransaction(tx) => {
            let b = enc_uint(KIND_SUBMIT_TRANSACTION);
            let c = enc_transaction(tx);
            lemma_occurs_split(s, at, a + b, c);
            lemma_occurs_split(s, at, a, b);
            lemma_array_of_round_trip(s, at, 2);
            lemma_uint_round_trip(s, at + a.len(), KIND_SUBMIT_TRANSACTION);
            lemma_transaction_round_trip_at(s, at + a.len() + b.len(), tx);
        },
    }
}

/// Loading what was saved gives back the message.
pub proof fn lemma_message_round_trip(message: MessageView)
    requires
        message_fits(message),
    ensures
        spec_load_message(enc_message(message)) == Some(message),
{
    let s = enc_message(message);
    lemma_occurs_whole(s);
    lemma_message_round_trip_at(s, 0, message);
}

/// The start of the encoding of a message of the given kind.
fn start_message(kind: u64) -> (out: Vec<u8>)
    ensures
        out@ == head(MAJOR_ARRAY, 2) + enc_uint(kind),
{
    let mut out: Vec<u8> = Vec::new();
    put_head(&mut out, MAJOR_ARRAY, 2);
    put_uint(&mut out, kind);
    assert(out@ =~= head(MAJOR_ARRAY, 2) + enc_uint(kind));
    out
}

/// Appends the encoding of a list of unspent outputs with their flags.
fn encode_found(found: &Vec<(TransactionOutput, bool)>, out: &mut Vec<u8>)
    ensures
        final(out)@ == old(out)@ + enc_array(found@, found_encoder()),
{
    put_head(out, MAJOR_ARRAY, found.len() as u64);
    let ghost start = out@;
    let mut i: usize = 0;
    while i < found.len()
        invariant
            0 <= i <= found.len(),
            out@ == start + enc_items(found@.take(i as int), found_encoder()),
        decreases found.len() - i,
    {
        let ghost base = out@;
        put_head(out, MAJOR_ARRAY, 2);
        found[i].0.encode(out);
        proof {
            lemma_concat_assoc(base, head(MAJOR_ARRAY, 2), enc_output(found@[i as int].0));
        }
        put_bool(out, found[i].1);
        proof {
            lemma_concat_assoc(
                base,
                head(MAJOR_ARRAY, 2) + enc_output(found@[i as int].0),
                enc_bool(found@[i as int].1),
            );
            lemma_enc_items_step(start, found@, i as int, found_encoder());
        }
        i += 1;
    }
    proof {
        assert(found@.take(i as int) =~= found@);
        lemma_concat_assoc(
            old(out)@,
            head(MAJOR_ARRAY, found.len() as u64),
            enc_items(found@, found_encoder()),
        );
    }
}

/// Reads an unspent output with its reservation flag.
fn decode_found(s: &[u8], at: usize) -> (r: Option<((TransactionOutput, bool), usize)>)
    ensures
        match r {
            Some((item, next)) => dec_found(s@, at as int) == Some((item, next as int)) && next
                <= s@.len(),
            None => dec_found(s@, at as int).is_none(),
        },
{
    reveal(dec_found);
    let at1: usize = match get_array_of(s, at, 2) {
        Some(p) => p,
        None => {
            return None;
        },
    };
    let (output, at2) = match decode_output(s, at1) {
        Some(found) => found,
        None => {
            return None;
        },
    };
    let (flag, at3) = match get_bool(s, at2) {
        Some(found) => found,
        None => {
            return None;
        },
    };
    Some(((output, flag), at3))
}

/// Reads a list of unspent outputs with their flags.
fn decode_found_list(s: &[u8], at: usize) -> (r: Option<(Vec<(TransactionOutput, bool)>, usize)>)
    ensures
        match r {
            Some((found, next)) => dec_array_items(s@, at as int, found_decoder()) == Some(
                (found@, next as int),
            ) && next <= s@.len(),
            None => dec_array_items(s@, at as int, found_decoder()).is_none(),
        },
{
    let (count, start) = match get_array(s, at) {
        Some(found) => found,
        None => {
            return None;
        },
    };
    let mut found: Vec<(TransactionOutput, bool)> = Vec::new();
    let mut place: usize = start;
    let mut k: u64 = 0;
    while k < count
        invariant
            0 <= k <= count,
            place <= s@.len(),
            dec_array(s@, at as int) == Some((count, start as int)),
            dec_items(s@, start as int, k as nat, found_decoder()) == Some(
                (found@, place as int),
            ),
        decreases count - k,
    {
        proof {
            lemma_dec_items_step(s@, start as int, k as nat, found_decoder());
        }
        match decode_found(s, place) {
            Some((item, next)) => {
                found.push(item);
                place = next;
            },
            None => {
                proof {
                    lemma_dec_items_fails(
                        s@,
                        start as int,
                        (k + 1) as nat,
                        count as nat,
                        found_decoder(),
                    );
                }
                return None;
            },
        }
        k += 1;
    }
    Some((found, place))
}

impl Message {
    /// The encoding of the message.
    pub fn save(&self) -> (bytes: Vec<u8>)
        ensures
            bytes@ == enc_message(self@),
    {
        match self {
            Message::FetchUTXOs(key) => {
                let mut out: Vec<u8> = start_message(KIND_FETCH_UTXOS);
                let bytes: Vec<u8> = key.to_sec1();
                put_bytes(&mut out, bytes.as_slice());
                out
            },
            Message::UTXOs(found) => {
                let mut out: Vec<u8> = start_message(KIND_UTXOS);
                encode_found(found, &mut out);
                out
            },
            Message::SubmitTransaction(tx) => {
                let mut out: Vec<u8> = start_message(KIND_SUBMIT_TRANSACTION);
                tx.encode(&mut out);
                out
            },
        }
    }

    /// The message that `bytes` stand for; `IoError` where they are not the encoding of
    /// a message and nothing more.
    pub fn load(bytes: &[u8]) -> (r: Result<Message, BtcError>)
        ensures
            match r {
                Ok(message) => spec_load_message(bytes@) == Some(message@),
                Err(e) => e == BtcError::IoError && spec_load_message(bytes@).is_none(),
            },
    {
        reveal(dec_message);
        let total: usize = bytes.len();
        let at1: usize = match get_array_of(bytes, 0, 2) {
            Some(p) => p,
            None => {
                return Err(BtcError::IoError);
            },
        };
        let (kind, at2) = match get_uint(bytes, at1) {
            Some(found) => found,
            None => {
                return Err(BtcError::IoError);
            },
        };
        if kind == KIND_FETCH_UTXOS {
            let start: usize = match get_bytes_start(bytes, at2, 33) {
                Some(p) => p,
                None => {
                    return Err(BtcError::IoError);
                },
            };
            assert(start + 33 <= total);
            let key: PublicKey = match PublicKey::from_sec1(
                vstd::slice::slice_subrange(bytes, start, start + 33),
            ) {
                Some(key) => key,
                None => {
                    return Err(BtcError::IoError);
                },
            };
            if start + 33 != total {
                return Err(BtcError::IoError);
            }
            Ok(Message::FetchUTXOs(key))
        } else if kind == KIND_UTXOS {
            match decode_found_list(bytes, at2) {
                Some((found, next)) => if next == total {
                    Ok(Message::UTXOs(found))
                } else {
                    Err(BtcError::IoError)
                },
                None => Err(BtcError::IoError),
            }
        } else if kind == KIND_SUBMIT_TRANSACTION {
            match Transaction::decode(bytes, at2) {
                Some((tx, next)) => if next == total {
                    Ok(Message::SubmitTransaction(tx))
                } else {
                    Err(BtcError::IoError)
                },
                None => Err(BtcError::IoError),
            }
        } else {
            Err(BtcError::IoError)
        }
    }
}

impl Blockchain {
    /// Answers a message. A request for unspent outputs is answered with the outputs
    /// that are made over to the key, and changes nothing. A transaction that is
    /// handed in goes to the pool, if it may enter it; there is no answer. Any other
    /// message is passed over.
    pub fn handle_message(&mut self, message: Message) -> (reply: Option<Message>)
        ensures
            match message {
                Message::FetchUTXOs(key) => final(self)@ == old(self)@ && final(self).utxo_entries()
                    == old(self).utxo_entries() && match reply {
                    Some(Message::UTXOs(found)) => found@ == owned_by(old(self).utxo_entries(), key),
                    _ => false,
                },
                Message::SubmitTransaction(tx) => reply.is_none() && exists|
                    now: Timestamp,
                    r: Result<(), BtcError>,
                | #[trigger] submission_outcome(old(self)@, tx@, now, r, final(self)@),
                Message::UTXOs(_) => reply.is_none() && final(self)@ == old(self)@,
            },
    {
        match message {
            Message::FetchUTXOs(key) => {
                let found: Vec<(TransactionOutput, bool)> = self.utxos().outputs_of(&key);
                Some(Message::UTXOs(found))
            },
            Message::SubmitTransaction(tx) => {
                let ghost view = tx@;
                let now: Timestamp = Timestamp::now();
                let r = self.add_to_mempool_at(tx, now);
                assert(submission_outcome(old(self)@, view, now, r, self@));
                None
            },
            Message::UTXOs(_) => None,
        }
    }
}

} // verus!
