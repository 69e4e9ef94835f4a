//! The canonical binary encoding: definite-length CBOR items in their shortest form.
//!
//! Numbers are unsigned or negative integers, byte strings carry keys, hashes and
//! signatures, and every record is an array of its fields in declaration order.

use crate::u256::{
    join_limb, lemma_limb_from_be_window, lemma_limb_round_trip, limb_from_be, limb_to_be, U256,
};
use vstd::prelude::*;

verus! {

/// Major type of an unsigned integer.
pub const MAJOR_UINT: u8 = 0;

/// Major type of a negative integer.
pub const MAJOR_NEGATIVE: u8 = 1;

/// Major type of a byte string.
pub const MAJOR_BYTES: u8 = 2;

/// Major type of an array.
pub const MAJOR_ARRAY: u8 = 4;

/// The initial byte of the value `false`.
pub const SIMPLE_FALSE: u8 = 0xf4;

/// The initial byte of the value `true`.
pub const SIMPLE_TRUE: u8 = 0xf5;

/// The head of an item: its major type and its argument, in the fewest bytes.
#[verifier::opaque]
pub open spec fn head(major: u8, n: u64) -> Seq<u8> {
    let m: int = major * 32;
    if n < 24 {
        seq![(m + n) as u8]
    } else if n < 0x100 {
        seq![(m + 24) as u8, n as u8]
    } else if n < 0x1_0000 {
        seq![(m + 25) as u8, (n / 0x100) as u8, (n % 0x100) as u8]
    } else if n < 0x1_0000_0000 {
        seq![
            (m + 26) as u8,
            (n / 0x100_0000) as u8,
            ((n / 0x1_0000) % 0x100) as u8,
            ((n / 0x100) % 0x100) as u8,
            (n % 0x100) as u8,
        ]
    } else {
        seq![(m + 27) as u8] + limb_to_be(n)
    }
}

/// An unsigned integer.
pub open spec fn enc_uint(n: u64) -> Seq<u8> {
    head(MAJOR_UINT, n)
}

/// A signed integer.
pub open spec fn enc_int(v: i64) -> Seq<u8> {
    if v >= 0 {
        head(MAJOR_UINT, v as u64)
    } else {
        head(MAJOR_NEGATIVE, (-1 - v) as u64)
    }
}

/// A truth value.
pub open spec fn enc_bool(b: bool) -> Seq<u8> {
    if b {
        seq![SIMPLE_TRUE]
    } else {
        seq![SIMPLE_FALSE]
    }
}

/// A byte string (of fewer than `2^64` bytes).
pub open spec fn enc_bytes(bytes: Seq<u8>) -> Seq<u8> {
    head(MAJOR_BYTES, bytes.len() as u64) + bytes
}

/// A 256-bit number: a byte string of its 32 bytes, the most significant first.
pub open spec fn enc_u256(x: U256) -> Seq<u8> {
    enc_bytes(x.spec_to_be_bytes())
}

/// The 16 bytes of a 128-bit number, the most significant first.
#[verifier::opaque]
pub open spec fn u128_to_be(x: u128) -> Seq<u8> {
    limb_to_be((x / 0x1_0000_0000_0000_0000) as u64) + limb_to_be(
        (x % 0x1_0000_0000_0000_0000) as u64,
    )
}

/// A 128-bit number: a byte string of its 16 bytes, the most significant first.
pub open spec fn enc_u128(x: u128) -> Seq<u8> {
    enc_bytes(u128_to_be(x))
}

/// The items of a sequence, one after the other.
pub open spec fn enc_items<T>(items: Seq<T>, enc: spec_fn(T) -> Seq<u8>) -> Seq<u8>
    decreases items.len(),
{
    if items.len() == 0 {
        Seq::empty()
    } else {
        enc_items(items.drop_last(), enc) + enc(items.last())
    }
}

/// An array: its length, then its items.
pub open spec fn enc_array<T>(items: Seq<T>, enc: spec_fn(T) -> Seq<u8>) -> Seq<u8> {
    head(MAJOR_ARRAY, items.len() as u64) + enc_items(items, enc)
}

/// The items of a sequence with one more item are those of the sequence, then the item.
pub proof fn lemma_enc_items_push<T>(items: Seq<T>, x: T, enc: spec_fn(T) -> Seq<u8>)
    ensures
        enc_items(items.push(x), enc) == enc_items(items, enc) + enc(x),
{
    assert(items.push(x).drop_last() =~= items);
}

/// Concatenation is associative.
pub proof fn lemma_concat_assoc(a: Seq<u8>, b: Seq<u8>, c: Seq<u8>)
    ensures
        (a + b) + c == a + (b + c),
{
    assert((a + b) + c =~= a + (b + c));
}

/// Appending one more item to items that follow `start`.
pub proof fn lemma_enc_items_step<T>(
    start: Seq<u8>,
    items: Seq<T>,
    i: int,
    enc: spec_fn(T) -> Seq<u8>,
)
    requires
        0 <= i < items.len(),
    ensures
        (start + enc_items(items.take(i), enc)) + enc(items[i]) == start + enc_items(
            items.take(i + 1),
            enc,
        ),
{
    lemma_enc_items_push(items.take(i), items[i], enc);
    assert(items.take(i + 1) =~= items.take(i).push(items[i]));
    lemma_concat_assoc(start, enc_items(items.take(i), enc), enc(items[i]));
}

/// Appends the head of an item.
pub fn put_head(out: &mut Vec<u8>, major: u8, n: u64)
    requires
        major < 8,
    ensures
        final(out)@ == old(out)@ + head(major, n),
{
    reveal(head);
    let m: u8 = major * 32;
    if n < 24 {
        out.push(m + n as u8);
    } else if n < 0x100 {
        out.push(m + 24);
        out.push(n as u8);
    } else if n < 0x1_0000 {
        out.push(m + 25);
        out.push((n / 0x100) as u8);
        out.push((n % 0x100) as u8);
    } else if n < 0x1_0000_0000 {
        out.push(m + 26);
        out.push((n / 0x100_0000) as u8);
        out.push(((n / 0x1_0000) % 0x100) as u8);
        out.push(((n / 0x100) % 0x100) as u8);
        out.push((n % 0x100) as u8);
    } else {
        out.push(m + 27);
        put_limb(out, n);
    }
    assert(out@ =~= old(out)@ + head(major, n));
}

/// Appends the eight bytes of a 64-bit number, the most significant first.
pub fn put_limb(out: &mut Vec<u8>, x: u64)
    ensures
        final(out)@ == old(out)@ + limb_to_be(x),
{
    out.push(((x / 0x100_0000_0000_0000) % 256) as u8);
    out.push(((x / 0x1_0000_0000_0000) % 256) as u8);
    out.push(((x / 0x100_0000_0000) % 256) as u8);
    out.push(((x / 0x1_0000_0000) % 256) as u8);
    out.push(((x / 0x100_0000) % 256) as u8);
    out.push(((x / 0x1_0000) % 256) as u8);
    out.push(((x / 0x100) % 256) as u8);
    out.push((x % 256) as u8);
    assert(out@ =~= old(out)@ + limb_to_be(x));
}

/// Appends an unsigned integer.
pub fn put_uint(out: &mut Vec<u8>, n: u64)
    ensures
        final(out)@ == old(out)@ + enc_uint(n),
{
    put_head(out, MAJOR_UINT, n);
}

/// Appends a signed integer.
pub fn put_int(out: &mut Vec<u8>, v: i64)
    ensures
        final(out)@ == old(out)@ + enc_int(v),
{
    if v >= 0 {
        put_head(out, MAJOR_UINT, v as u64);
    } else {
        put_head(out, MAJOR_NEGATIVE, (-1 - v) as u64);
    }
}

/// Appends a truth value.
pub fn put_bool(out: &mut Vec<u8>, b: bool)
    ensures
        final(out)@ == old(out)@ + enc_bool(b),
{
    if b {
        out.push(SIMPLE_TRUE);
    } else {
        out.push(SIMPLE_FALSE);
    }
    assert(out@ =~= old(out)@ + enc_bool(b));
}

/// Appends bytes as they are.
pub fn put_raw(out: &mut Vec<u8>, bytes: &[u8])
    ensures
        final(out)@ == old(out)@ + bytes@,
{
    let mut i: usize = 0;
    while i < bytes.len()
        invariant
            0 <= i <= bytes.len(),
            out@ == old(out)@ + bytes@.take(i as int),
        decreases bytes.len() - i,
    {
        out.push(bytes[i]);
        assert(bytes@.take(i + 1) =~= bytes@.take(i as int).push(bytes@[i as int]));
        i += 1;
    }
    assert(bytes@.take(i as int) =~= bytes@);
}

/// Appends a byte string.
pub fn put_bytes(out: &mut Vec<u8>, bytes: &[u8])
    ensures
        final(out)@ == old(out)@ + enc_bytes(bytes@),
{
    put_head(out, MAJOR_BYTES, bytes.len() as u64);
    put_raw(out, bytes);
    assert(out@ =~= old(out)@ + enc_bytes(bytes@));
}

/// Appends a 256-bit number.
pub fn put_u256(out: &mut Vec<u8>, x: &U256)
    ensures
        final(out)@ == old(out)@ + enc_u256(*x),
{
    let bytes: [u8; 32] = x.to_be_bytes();
    put_bytes(out, vstd::array::array_as_slice(&bytes));
}

/// Appends a 128-bit number.
pub fn put_u128(out: &mut Vec<u8>, x: u128)
    ensures
        final(out)@ == old(out)@ + enc_u128(x),
{
    reveal(u128_to_be);
    put_head(out, MAJOR_BYTES, 16);
    put_limb(out, (x / 0x1_0000_0000_0000_0000) as u64);
    put_limb(out, (x % 0x1_0000_0000_0000_0000) as u64);
    assert(u128_to_be(x).len() == 16);
    assert(out@ =~= old(out)@ + enc_u128(x));
}

/// Whether the bytes `part` stand in `s` from the place `at` on.
#[verifier::opaque]
pub open spec fn occurs(s: Seq<u8>, at: int, part: Seq<u8>) -> bool {
    0 <= at && at + part.len() <= s.len() && s.subrange(at, at + part.len()) == part
}

/// Bytes stand in themselves from the start on.
pub proof fn lemma_occurs_whole(s: Seq<u8>)
    ensures
        occurs(s, 0, s),
{
    reveal(occurs);
    assert(s.subrange(0, s.len() as int) =~= s);
}

/// Where two parts stand one after the other, each of them stands at its place.
pub proof fn lemma_occurs_split(s: Seq<u8>, at: int, a: Seq<u8>, b: Seq<u8>)
    requires
        occurs(s, at, a + b),
    ensures
        occurs(s, at, a),
        occurs(s, at + a.len(), b),
{
    reveal(occurs);
    let whole = s.subrange(at, at + (a + b).len());
    assert(s.subrange(at, at + a.len()) =~= whole.subrange(0, a.len() as int));
    assert(whole.subrange(0, a.len() as int) =~= a);
    assert(s.subrange(at + a.len(), at + a.len() + b.len()) =~= whole.subrange(
        a.len() as int,
        (a + b).len() as int,
    ));
    assert(whole.subrange(a.len() as int, (a + b).len() as int) =~= b);
}

/// Reads the head of an item at the place `at`: its major type, its argument and the
/// place behind it. Only the shortest form of a head is read.
#[verifier::opaque]
pub open spec fn dec_head(s: Seq<u8>, at: int) -> Option<(u8, u64, int)> {
    if at < 0 || at >= s.len() {
        None
    } else {
        let major: u8 = (s[at] / 32) as u8;
        let info: int = (s[at] % 32) as int;
        if info < 24 {
            Some((major, info as u64, at + 1))
        } else if info == 24 {
            if at + 2 <= s.len() && s[at + 1] >= 24 {
                Some((major, s[at + 1] as u64, at + 2))
            } else {
                None
            }
        } else if info == 25 {
            if at + 3 <= s.len() && s[at + 1] > 0 {
                Some((major, (s[at + 1] * 0x100 + s[at + 2]) as u64, at + 3))
            } else {
                None
            }
        } else if info == 26 {
            if at + 5 <= s.len() && (s[at + 1] > 0 || s[at + 2] > 0) {
                Some(
                    (
                        major,
                        (s[at + 1] * 0x100_0000 + s[at + 2] * 0x1_0000 + s[at + 3] * 0x100 + s[at
                            + 4]) as u64,
                        at + 5,
                    ),
                )
            } else {
                None
            }
        } else if info == 27 {
            if at + 9 <= s.len() && limb_from_be(s, at + 1) >= 0x1_0000_0000 {
                Some((major, limb_from_be(s, at + 1), at + 9))
            } else {
                None
            }
        } else {
            None
        }
    }
}

/// Reading a head that was written gives back what was written.
pub proof fn lemma_head_round_trip(s: Seq<u8>, at: int, major: u8, n: u64)
    requires
        major < 8,
        occurs(s, at, head(major, n)),
    ensures
        dec_head(s, at) == Some((major, n, at + head(major, n).len())),
{
    reveal(head);
    reveal(occurs);
    reveal(dec_head);
    let h = head(major, n);
    let part = s.subrange(at, at + h.len());
    assert(part == h);
    assert(s[at] == part[0]);
    if n < 24 {
        assert(h[0] == (major * 32 + n) as u8);
    } else if n < 0x100 {
        assert(s[at + 1] == part[1]);
    } else if n < 0x1_0000 {
        assert(s[at + 1] == part[1]);
        assert(s[at + 2] == part[2]);
    } else if n < 0x1_0000_0000 {
        assert(s[at + 1] == part[1]);
        assert(s[at + 2] == part[2]);
        assert(s[at + 3] == part[3]);
        assert(s[at + 4] == part[4]);
        assert(n == (n / 0x100_0000) * 0x100_0000 + ((n / 0x1_0000) % 0x100) * 0x1_0000 + ((n
            / 0x100) % 0x100) * 0x100 + (n % 0x100)) by (bit_vector)
            requires
                n < 0x1_0000_0000,
        ;
    } else {
        lemma_limb_round_trip(n);
        lemma_limb_from_be_window(s, at + 1);
        assert(s.subrange(at + 1, at + 9) =~= part.subrange(1, 9));
        assert(part.subrange(1, 9) =~= limb_to_be(n));
    }
}

/// Reads an unsigned integer.
pub open spec fn dec_uint(s: Seq<u8>, at: int) -> Option<(u64, int)> {
    match dec_head(s, at) {
        Some((major, n, next)) => if major == MAJOR_UINT {
            Some((n, next))
        } else {
            None
        },
        None => None,
    }
}

/// Reads a signed integer.
pub open spec fn dec_int(s: Seq<u8>, at: int) -> Option<(i64, int)> {
    match dec_head(s, at) {
        Some((major, n, next)) => if n > i64::MAX {
            None
        } else if major == MAJOR_UINT {
            Some((n as i64, next))
        } else if major == MAJOR_NEGATIVE {
            Some(((-1 - n) as i64, next))
        } else {
            None
        },
        None => None,
    }
}

/// Reads a truth value.
pub open spec fn dec_bool(s: Seq<u8>, at: int) -> Option<(bool, int)> {
    if 0 <= at < s.len() && s[at] == SIMPLE_TRUE {
        Some((true, at + 1))
    } else if 0 <= at < s.len() && s[at] == SIMPLE_FALSE {
        Some((false, at + 1))
    } else {
        None
    }
}

/// Reads a byte string of exactly `len` bytes.
pub open spec fn dec_bytes(s: Seq<u8>, at: int, len: int) -> Option<(Seq<u8>, int)> {
    match dec_head(s, at) {
        Some((major, n, next)) => if major == MAJOR_BYTES && n == len && next + len <= s.len() {
            Some((s.subrange(next, next + len), next + len))
        } else {
            None
        },
        None => None,
    }
}

/// Reads the head of an array of exactly `count` items.
pub open spec fn dec_array_of(s: Seq<u8>, at: int, count: int) -> Option<int> {
    match dec_head(s, at) {
        Some((major, n, next)) => if major == MAJOR_ARRAY && n == count {
            Some(next)
        } else {
            None
        },
        None => None,
    }
}

/// Reads the head of an array: the number of its items.
pub open spec fn dec_array(s: Seq<u8>, at: int) -> Option<(u64, int)> {
    match dec_head(s, at) {
        Some((major, n, next)) => if major == MAJOR_ARRAY {
            Some((n, next))
        } else {
            None
        },
        None => None,
    }
}

/// Reads a 256-bit number.
pub open spec fn dec_u256(s: Seq<u8>, at: int) -> Option<(U256, int)> {
    match dec_bytes(s, at, 32) {
        Some((bytes, next)) => Some((U256::spec_from_be_bytes(bytes), next)),
        None => None,
    }
}

/// The 128-bit number that 16 bytes stand for, the most significant first.
#[verifier::opaque]
pub open spec fn u128_from_be(bytes: Seq<u8>) -> u128 {
    (limb_from_be(bytes, 0) * 0x1_0000_0000_0000_0000 + limb_from_be(bytes, 8)) as u128
}

/// Reads a 128-bit number.
pub open spec fn dec_u128(s: Seq<u8>, at: int) -> Option<(u128, int)> {
    match dec_bytes(s, at, 16) {
        Some((bytes, next)) => Some((u128_from_be(bytes), next)),
        None => None,
    }
}

/// Reads `count` items, one after the other.
pub open spec fn dec_items<T>(
    s: Seq<u8>,
    at: int,
    count: nat,
    dec: spec_fn(Seq<u8>, int) -> Option<(T, int)>,
) -> Option<(Seq<T>, int)>
    decreases count,
{
    if count == 0 {
        Some((Seq::empty(), at))
    } else {
        match dec_items(s, at, (count - 1) as nat, dec) {
            Some((items, middle)) => match dec(s, middle) {
                Some((item, next)) => Some((items.push(item), next)),
                None => None,
            },
            None => None,
        }
    }
}

/// Reads an array: the number of its items, then the items.
pub open spec fn dec_array_items<T>(
    s: Seq<u8>,
    at: int,
    dec: spec_fn(Seq<u8>, int) -> Option<(T, int)>,
) -> Option<(Seq<T>, int)> {
    match dec_array(s, at) {
        Some((count, next)) => dec_items(s, next, count as nat, dec),
        None => None,
    }
}

/// Reading an unsigned integer that was written gives it back.
pub proof fn lemma_uint_round_trip(s: Seq<u8>, at: int, n: u64)
    requires
        occurs(s, at, enc_uint(n)),
    ensures
        dec_uint(s, at) == Some((n, at + enc_uint(n).len())),
{
    lemma_head_round_trip(s, at, MAJOR_UINT, n);
}

/// Reading a signed integer that was written gives it back.
pub proof fn lemma_int_round_trip(s: Seq<u8>, at: int, v: i64)
    requires
        occurs(s, at, enc_int(v)),
    ensures
        dec_int(s, at) == Some((v, at + enc_int(v).len())),
{
    if v >= 0 {
        lemma_head_round_trip(s, at, MAJOR_UINT, v as u64);
    } else {
        lemma_head_round_trip(s, at, MAJOR_NEGATIVE, (-1 - v) as u64);
    }
}

/// Reading a truth value that was written gives it back.
pub proof fn lemma_bool_round_trip(s: Seq<u8>, at: int, b: bool)
    requires
        occurs(s, at, enc_bool(b)),
    ensures
        dec_bool(s, at) == Some((b, at + 1)),
        enc_bool(b).len() == 1,
{
    reveal(occurs);
    assert(s[at] == s.subrange(at, at + 1)[0]);
}

/// Reading a byte string that was written gives it back.
pub proof fn lemma_bytes_round_trip(s: Seq<u8>, at: int, bytes: Seq<u8>)
    requires
        bytes.len() <= u64::MAX,
        occurs(s, at, enc_bytes(bytes)),
    ensures
        dec_bytes(s, at, bytes.len() as int) == Some((bytes, at + enc_bytes(bytes).len())),
{
    let h = head(MAJOR_BYTES, bytes.len() as u64);
    lemma_occurs_split(s, at, h, bytes);
    lemma_head_round_trip(s, at, MAJOR_BYTES, bytes.len() as u64);
    reveal(occurs);
}

/// Reading a 256-bit number that was written gives it back.
pub proof fn lemma_u256_round_trip(s: Seq<u8>, at: int, x: U256)
    requires
        occurs(s, at, enc_u256(x)),
    ensures
        dec_u256(s, at) == Some((x, at + enc_u256(x).len())),
{
    x.lemma_be_bytes_round_trip();
    lemma_bytes_round_trip(s, at, x.spec_to_be_bytes());
}

/// Reading back the bytes of a 128-bit number gives the number.
pub proof fn lemma_u128_be_round_trip(x: u128)
    ensures
        u128_to_be(x).len() == 16,
        u128_from_be(u128_to_be(x)) == x,
{
    reveal(u128_to_be);
    reveal(u128_from_be);
    let high: u64 = (x / 0x1_0000_0000_0000_0000) as u64;
    let low: u64 = (x % 0x1_0000_0000_0000_0000) as u64;
    let s = u128_to_be(x);
    lemma_limb_round_trip(high);
    lemma_limb_round_trip(low);
    assert(s.subrange(0, 8) =~= limb_to_be(high));
    assert(s.subrange(8, 16) =~= limb_to_be(low));
    lemma_limb_from_be_window(s, 0);
    lemma_limb_from_be_window(s, 8);
}

/// Reading a 128-bit number that was written gives it back.
pub proof fn lemma_u128_round_trip(s: Seq<u8>, at: int, x: u128)
    requires
        occurs(s, at, enc_u128(x)),
    ensures
        dec_u128(s, at) == Some((x, at + enc_u128(x).len())),
{
    lemma_u128_be_round_trip(x);
    lemma_bytes_round_trip(s, at, u128_to_be(x));
}

/// Reading items that were written gives them back, if reading any one of them where it
/// was written gives it back.
pub proof fn lemma_items_round_trip<T>(
    s: Seq<u8>,
    at: int,
    items: Seq<T>,
    enc: spec_fn(T) -> Seq<u8>,
    dec: spec_fn(Seq<u8>, int) -> Option<(T, int)>,
)
    requires
        occurs(s, at, enc_items(items, enc)),
        forall|x: T, p: int| #[trigger]
            occurs(s, p, enc(x)) ==> dec(s, p) == Some((x, p + enc(x).len())),
    ensures
        dec_items(s, at, items.len(), dec) == Some((items, at + enc_items(items, enc).len())),
    decreases items.len(),
{
    if items.len() == 0 {
        assert(items =~= Seq::<T>::empty());
    } else {
        let rest = items.drop_last();
        lemma_occurs_split(s, at, enc_items(rest, enc), enc(items.last()));
        lemma_items_round_trip(s, at, rest, enc, dec);
        let middle = at + enc_items(rest, enc).len();
        assert(occurs(s, middle, enc(items.last())));
        assert(rest.push(items.last()) =~= items);
    }
}

/// Reading an array that was written gives it back, if reading any one of its items
/// where it was written gives it back.
pub proof fn lemma_array_round_trip<T>(
    s: Seq<u8>,
    at: int,
    items: Seq<T>,
    enc: spec_fn(T) -> Seq<u8>,
    dec: spec_fn(Seq<u8>, int) -> Option<(T, int)>,
)
    requires
        items.len() <= u64::MAX,
        occurs(s, at, enc_array(items, enc)),
        forall|x: T, p: int| #[trigger]
            occurs(s, p, enc(x)) ==> dec(s, p) == Some((x, p + enc(x).len())),
    ensures
        dec_array_items(s, at, dec) == Some((items, at + enc_array(items, enc).len())),
{
    let h = head(MAJOR_ARRAY, items.len() as u64);
    lemma_occurs_split(s, at, h, enc_items(items, enc));
    lemma_head_round_trip(s, at, MAJOR_ARRAY, items.len() as u64);
    lemma_items_round_trip(s, at + h.len(), items, enc, dec);
}

/// Reading the head of an array of `count` items that was written.
pub proof fn lemma_array_of_round_trip(s: Seq<u8>, at: int, count: u64)
    requires
        occurs(s, at, head(MAJOR_ARRAY, count)),
    ensures
        dec_array_of(s, at, count as int) == Some(at + head(MAJOR_ARRAY, count).len()),
{
    lemma_head_round_trip(s, at, MAJOR_ARRAY, count);
}

/// Reading one more item.
pub proof fn lemma_dec_items_step<T>(
    s: Seq<u8>,
    at: int,
    k: nat,
    dec: spec_fn(Seq<u8>, int) -> Option<(T, int)>,
)
    ensures
        dec_items(s, at, k + 1, dec) == match dec_items(s, at, k, dec) {
            Some((items, middle)) => match dec(s, middle) {
                Some((item, next)) => Some((items.push(item), next)),
                None => None,
            },
            None => None,
        },
{
    assert((k + 1 - 1) as nat == k);
}

/// Where reading some items fails, reading more of them fails too.
pub proof fn lemma_dec_items_fails<T>(
    s: Seq<u8>,
    at: int,
    k: nat,
    n: nat,
    dec: spec_fn(Seq<u8>, int) -> Option<(T, int)>,
)
    requires
        k <= n,
        dec_items(s, at, k, dec).is_none(),
    ensures
        dec_items(s, at, n, dec).is_none(),
    decreases n,
{
    if k < n {
        lemma_dec_items_fails(s, at, k, (n - 1) as nat, dec);
    }
}

/// Reads the head of an item.
pub fn get_head(s: &[u8], at: usize) -> (r: Option<(u8, u64, usize)>)
    ensures
        match r {
            Some((major, n, next)) => dec_head(s@, at as int) == Some((major, n, next as int))
                && next <= s@.len(),
            None => dec_head(s@, at as int).is_none(),
        },
{
    reveal(dec_head);
    if at >= s.len() {
        return None;
    }
    let first: u8 = s[at];
    let major: u8 = first / 32;
    let info: u8 = first % 32;
    let left: usize = s.len() - at;
    if info < 24 {
        Some((major, info as u64, at + 1))
    } else if info == 24 {
        if left >= 2 && s[at + 1] >= 24 {
            Some((major, s[at + 1] as u64, at + 2))
        } else {
            None
        }
    } else if info == 25 {
        if left >= 3 && s[at + 1] > 0 {
            Some((major, (s[at + 1] as u64) * 0x100 + s[at + 2] as u64, at + 3))
        } else {
            None
        }
    } else if info == 26 {
        if left >= 5 && (s[at + 1] > 0 || s[at + 2] > 0) {
            Some(
                (
                    major,
                    (s[at + 1] as u64) * 0x100_0000 + (s[at + 2] as u64) * 0x1_0000 + (s[at
                        + 3] as u64) * 0x100 + s[at + 4] as u64,
                    at + 5,
                ),
            )
        } else {
            None
        }
    } else if info == 27 {
        if left >= 9 {
            let n: u64 = join_limb(
                s[at + 1],
                s[at + 2],
                s[at + 3],
                s[at + 4],
                s[at + 5],
                s[at + 6],
                s[at + 7],
                s[at + 8],
            );
            if n >= 0x1_0000_0000 {
                Some((major, n, at + 9))
            } else {
                None
            }
        } else {
            None
        }
    } else {
        None
    }
}

/// Reads an unsigned integer.
pub fn get_uint(s: &[u8], at: usize) -> (r: Option<(u64, usize)>)
    ensures
        match r {
            Some((n, next)) => dec_uint(s@, at as int) == Some((n, next as int)) && next
                <= s@.len(),
            None => dec_uint(s@, at as int).is_none(),
        },
{
    match get_head(s, at) {
        Some((major, n, next)) => if major == MAJOR_UINT {
            Some((n, next))
        } else {
            None
        },
        None => None,
    }
}

/// Reads a signed integer.
pub fn get_int(s: &[u8], at: usize) -> (r: Option<(i64, usize)>)
    ensures
        match r {
            Some((v, next)) => dec_int(s@, at as int) == Some((v, next as int)) && next <= s@.len(),
            None => dec_int(s@, at as int).is_none(),
        },
{
    match get_head(s, at) {
        Some((major, n, next)) => if n > i64::MAX as u64 {
            None
        } else if major == MAJOR_UINT {
            Some((n as i64, next))
        } else if major == MAJOR_NEGATIVE {
            Some((-1 - (n as i64), next))
        } else {
            None
        },
        None => None,
    }
}

/// Reads a truth value.
pub fn get_bool(s: &[u8], at: usize) -> (r: Option<(bool, usize)>)
    ensures
        match r {
            Some((b, next)) => dec_bool(s@, at as int) == Some((b, next as int)) && next
                <= s@.len(),
            None => dec_bool(s@, at as int).is_none(),
        },
{
    if at < s.len() && s[at] == SIMPLE_TRUE {
        Some((true, at + 1))
    } else if at < s.len() && s[at] == SIMPLE_FALSE {
        Some((false, at + 1))
    } else {
        None
    }
}

/// Reads the head of a byte string of exactly `len` bytes and gives the place of its
/// first byte.
pub fn get_bytes_start(s: &[u8], at: usize, len: usize) -> (r: Option<usize>)
    ensures
        match r {
            Some(start) => start + len <= s@.len() && dec_bytes(s@, at as int, len as int) == Some(
                (s@.subrange(start as int, start + len), start + len),
            ),
            None => dec_bytes(s@, at as int, len as int).is_none(),
        },
{
    match get_head(s, at) {
        Some((major, n, next)) => if major == MAJOR_BYTES && n == len as u64 && s.len() - next
            >= len {
            Some(next)
        } else {
            None
        },
        None => None,
    }
}

/// Reads the head of an array of exactly `count` items.
pub fn get_array_of(s: &[u8], at: usize, count: u64) -> (r: Option<usize>)
    ensures
        match r {
            Some(next) => dec_array_of(s@, at as int, count as int) == Some(next as int) && next
                <= s@.len(),
            None => dec_array_of(s@, at as int, count as int).is_none(),
        },
{
    match get_head(s, at) {
        Some((major, n, next)) => if major == MAJOR_ARRAY && n == count {
            Some(next)
        } else {
            None
        },
        None => None,
    }
}

/// Reads the head of an array.
pub fn get_array(s: &[u8], at: usize) -> (r: Option<(u64, usize)>)
    ensures
        match r {
            Some((n, next)) => dec_array(s@, at as int) == Some((n, next as int)) && next
                <= s@.len(),
            None => dec_array(s@, at as int).is_none(),
        },
{
    match get_head(s, at) {
        Some((major, n, next)) => if major == MAJOR_ARRAY {
            Some((n, next))
        } else {
            None
        },
        None => None,
    }
}

/// Reads a 256-bit number.
pub fn get_u256(s: &[u8], at: usize) -> (r: Option<(U256, usize)>)
    ensures
        match r {
            Some((x, next)) => dec_u256(s@, at as int) == Some((x, next as int)) && next
                <= s@.len(),
            None => dec_u256(s@, at as int).is_none(),
        },
{
    reveal(U256::spec_from_be_bytes);
    let total: usize = s.len();
    match get_bytes_start(s, at, 32) {
        Some(start) => {
            assert(start + 32 <= total);
            let x = U256 {
                l0: join_limb(
                    s[start + 24],
                    s[start + 25],
                    s[start + 26],
                    s[start + 27],
                    s[start + 28],
                    s[start + 29],
                    s[start + 30],
                    s[start + 31],
                ),
                l1: join_limb(
                    s[start + 16],
                    s[start + 17],
                    s[start + 18],
                    s[start + 19],
                    s[start + 20],
                    s[start + 21],
                    s[start + 22],
                    s[start + 23],
                ),
                l2: join_limb(
                    s[start + 8],
                    s[start + 9],
                    s[start + 10],
                    s[start + 11],
                    s[start + 12],
                    s[start + 13],
                    s[start + 14],
                    s[start + 15],
                ),
                l3: join_limb(
                    s[start],
                    s[start + 1],
                    s[start + 2],
                    s[start + 3],
                    s[start + 4],
                    s[start + 5],
                    s[start + 6],
                    s[start + 7],
                ),
            };
            Some((x, start + 32))
        },
        None => None,
    }
}

/// Reads a 128-bit number.
pub fn get_u128(s: &[u8], at: usize) -> (r: Option<(u128, usize)>)
    ensures
        match r {
            Some((x, next)) => dec_u128(s@, at as int) == Some((x, next as int)) && next
                <= s@.len(),
            None => dec_u128(s@, at as int).is_none(),
        },
{
    reveal(u128_from_be);
    let total: usize = s.len();
    match get_bytes_start(s, at, 16) {
        Some(start) => {
            assert(start + 16 <= total);
            let high: u64 = join_limb(
                s[start],
                s[start + 1],
                s[start + 2],
                s[start + 3],
                s[start + 4],
                s[start + 5],
                s[start + 6],
                s[start + 7],
            );
            let low: u64 = join_limb(
                s[start + 8],
                s[start + 9],
                s[start + 10],
                s[start + 11],
                s[start + 12],
                s[start + 13],
                s[start + 14],
                s[start + 15],
            );
            Some(((high as u128) * 0x1_0000_0000_0000_0000 + low as u128, start + 16))
        },
        None => None,
    }
}

} // verus!
