//! The index of unspent outputs: a finite map from the hash of an output to the output
//! and a flag that says whether a pending transaction has reserved it.

use crate::crypto::PublicKey;
use crate::types::transaction::{TransactionInput, TransactionOutput};
use vstd::prelude::*;

verus! {

/// One entry of the index.
#[derive(Clone, Copy, Debug, PartialEq, Eq, Structural)]
pub struct UtxoEntry {
    pub key: crate::sha256::Hash,
    pub reserved: bool,
    pub output: TransactionOutput,
}

/// What the index holds under a key: the reservation flag and the output.
pub type UtxoMap = Map<crate::sha256::Hash, (bool, TransactionOutput)>;

/// No two entries have the same key.
pub open spec fn distinct_keys(entries: Seq<UtxoEntry>) -> bool {
    forall|i: int, j: int|
        0 <= i < j < entries.len() ==> (#[trigger] entries[i]).key != (#[trigger] entries[j]).key
}

/// Some entry has the key `key`.
pub open spec fn has_key(entries: Seq<UtxoEntry>, key: crate::sha256::Hash) -> bool {
    exists|i: int| 0 <= i < entries.len() && (#[trigger] entries[i]).key == key
}

/// The place of an entry with the key `key`.
pub open spec fn place_of(entries: Seq<UtxoEntry>, key: crate::sha256::Hash) -> int {
    choose|i: int| 0 <= i < entries.len() && (#[trigger] entries[i]).key == key
}

/// The map that a sequence of entries stands for.
pub open spec fn entries_map(entries: Seq<UtxoEntry>) -> UtxoMap {
    Map::new(
        |key: crate::sha256::Hash| has_key(entries, key),
        |key: crate::sha256::Hash|
            (entries[place_of(entries, key)].reserved, entries[place_of(entries, key)].output),
    )
}

/// With distinct keys, the map holds every entry under its key.
pub proof fn lemma_map_of_entry(entries: Seq<UtxoEntry>, i: int)
    requires
        distinct_keys(entries),
        0 <= i < entries.len(),
    ensures
        entries_map(entries).contains_key(entries[i].key),
        entries_map(entries)[entries[i].key] == (entries[i].reserved, entries[i].output),
        place_of(entries, entries[i].key) == i,
{
    let key = entries[i].key;
    assert(has_key(entries, key));
    let j = place_of(entries, key);
    assert(0 <= j < entries.len() && entries[j].key == key);
    if j < i {
        assert(entries[j].key != entries[i].key);
    } else if i < j {
        assert(entries[i].key != entries[j].key);
    }
}

/// Appending an entry under a new key inserts it into the map.
pub proof fn lemma_map_push(entries: Seq<UtxoEntry>, entry: UtxoEntry)
    requires
        distinct_keys(entries),
        !has_key(entries, entry.key),
    ensures
        distinct_keys(entries.push(entry)),
        entries_map(entries.push(entry)) == entries_map(entries).insert(
            entry.key,
            (entry.reserved, entry.output),
        ),
{
    let after = entries.push(entry);
    assert forall|i: int, j: int| 0 <= i < j < after.len() implies (#[trigger] after[i]).key != (
    #[trigger] after[j]).key by {
        if j == entries.len() {
            assert(entries[i].key != entry.key);
        } else {
            assert(entries[i].key != entries[j].key);
        }
    }
    let m1 = entries_map(after);
    let m2 = entries_map(entries).insert(entry.key, (entry.reserved, entry.output));
    assert forall|key: crate::sha256::Hash| m1.contains_key(key) == m2.contains_key(key) by {
        if has_key(after, key) {
            let i = place_of(after, key);
            if i < entries.len() {
                assert(entries[i].key == key);
            }
        }
        if has_key(entries, key) {
            let i = place_of(entries, key);
            assert(after[i].key == key);
        }
        if key == entry.key {
            assert(after[entries.len() as int].key == key);
        }
    }
    assert forall|key: crate::sha256::Hash| m1.contains_key(key) implies m1[key] == m2[key] by {
        let i = place_of(after, key);
        lemma_map_of_entry(after, i);
        if i < entries.len() {
            assert(entries[i].key == key);
            lemma_map_of_entry(entries, i);
        }
    }
    assert(m1 =~= m2);
}

/// Replacing an entry by one with the same key overwrites it in the map.
pub proof fn lemma_map_update(entries: Seq<UtxoEntry>, i: int, entry: UtxoEntry)
    requires
        distinct_keys(entries),
        0 <= i < entries.len(),
        entry.key == entries[i].key,
    ensures
        distinct_keys(entries.update(i, entry)),
        entries_map(entries.update(i, entry)) == entries_map(entries).insert(
            entry.key,
            (entry.reserved, entry.output),
        ),
{
    let after = entries.update(i, entry);
    assert forall|a: int, b: int| 0 <= a < b < after.len() implies (#[trigger] after[a]).key != (
    #[trigger] after[b]).key by {
        assert(entries[a].key != entries[b].key);
    }
    let m1 = entries_map(after);
    let m2 = entries_map(entries).insert(entry.key, (entry.reserved, entry.output));
    assert forall|key: crate::sha256::Hash| m1.contains_key(key) == m2.contains_key(key) by {
        if has_key(after, key) {
            let a = place_of(after, key);
            assert(entries[a].key == key);
        }
        if has_key(entries, key) {
            let a = place_of(entries, key);
            assert(after[a].key == key);
        }
        if key == entry.key {
            assert(after[i].key == key);
        }
    }
    assert forall|key: crate::sha256::Hash| m1.contains_key(key) implies m1[key] == m2[key] by {
        let a = place_of(after, key);
        lemma_map_of_entry(after, a);
        if a != i {
            assert(entries[a].key == key);
            lemma_map_of_entry(entries, a);
        }
    }
    assert(m1 =~= m2);
}

/// Taking out an entry removes its key from the map.
pub proof fn lemma_map_remove(entries: Seq<UtxoEntry>, i: int)
    requires
        distinct_keys(entries),
        0 <= i < entries.len(),
    ensures
        distinct_keys(entries.remove(i)),
        entries_map(entries.remove(i)) == entries_map(entries).remove(entries[i].key),
{
    let after = entries.remove(i);
    assert forall|a: int, b: int| 0 <= a < b < after.len() implies (#[trigger] after[a]).key != (
    #[trigger] after[b]).key by {
        let a0 = if a < i { a } else { a + 1 };
        let b0 = if b < i { b } else { b + 1 };
        assert(entries[a0].key != entries[b0].key);
    }
    let m1 = entries_map(after);
    let m2 = entries_map(entries).remove(entries[i].key);
    assert forall|key: crate::sha256::Hash| m1.contains_key(key) == m2.contains_key(key) by {
        if has_key(after, key) {
            let a = place_of(after, key);
            let a0 = if a < i { a } else { a + 1 };
            assert(entries[a0].key == key);
            if key == entries[i].key {
                if a0 < i {
                    assert(entries[a0].key != entries[i].key);
                } else {
                    assert(entries[i].key != entries[a0].key);
                }
            }
        }
        if has_key(entries, key) && key != entries[i].key {
            let a0 = place_of(entries, key);
            let a = if a0 < i { a0 } else { a0 - 1 };
            assert(after[a].key == key);
        }
    }
    assert forall|key: crate::sha256::Hash| m1.contains_key(key) implies m1[key] == m2[key] by {
        let a = place_of(after, key);
        lemma_map_of_entry(after, a);
        let a0 = if a < i { a } else { a + 1 };
        assert(entries[a0].key == key);
        lemma_map_of_entry(entries, a0);
    }
    assert(m1 =~= m2);
}

/// The outputs among some entries that are made over to `key`, each with its
/// reservation flag, in the order of the entries.
pub open spec fn owned_by(entries: Seq<UtxoEntry>, key: PublicKey) -> Seq<(TransactionOutput, bool)>
    decreases entries.len(),
{
    if entries.len() == 0 {
        Seq::empty()
    } else if entries.last().output.pubkey == key {
        owned_by(entries.drop_last(), key).push((entries.last().output, entries.last().reserved))
    } else {
        owned_by(entries.drop_last(), key)
    }
}

/// The outputs that are made over to a key are those of the entries whose output names
/// the key, and no others.
pub proof fn lemma_owned_by(entries: Seq<UtxoEntry>, key: PublicKey)
    ensures
        forall|i: int|
            0 <= i < entries.len() && (#[trigger] entries[i]).output.pubkey == key ==> owned_by(
                entries,
                key,
            ).contains((entries[i].output, entries[i].reserved)),
        forall|j: int|
            0 <= j < owned_by(entries, key).len() ==> (#[trigger] owned_by(entries, key)[j]).0.pubkey
                == key && exists|i: int|
                0 <= i < entries.len() && (#[trigger] entries[i]).output == owned_by(entries, key)[j].0
                    && entries[i].reserved == owned_by(entries, key)[j].1,
    decreases entries.len(),
{
    if entries.len() > 0 {
        let rest = entries.drop_last();
        let last = entries.last();
        lemma_owned_by(rest, key);
        let all = owned_by(entries, key);
        let before = owned_by(rest, key);
        assert forall|i: int|
            0 <= i < entries.len() && (#[trigger] entries[i]).output.pubkey == key implies all.contains(
            (entries[i].output, entries[i].reserved),
        ) by {
            if i < rest.len() {
                assert(rest[i] == entries[i]);
                let item = (entries[i].output, entries[i].reserved);
                assert(before.contains(item));
                let j = choose|j: int| 0 <= j < before.len() && before[j] == item;
                assert(all[j] == item);
            } else {
                assert(all[all.len() - 1] == (last.output, last.reserved));
            }
        }
        assert forall|j: int| 0 <= j < all.len() implies (#[trigger] all[j]).0.pubkey == key
            && exists|i: int|
            0 <= i < entries.len() && (#[trigger] entries[i]).output == all[j].0
                && entries[i].reserved == all[j].1 by {
            if j < before.len() {
                assert(all[j] == before[j]);
                let i = choose|i: int|
                    0 <= i < rest.len() && (#[trigger] rest[i]).output == before[j].0
                        && rest[i].reserved == before[j].1;
                assert(entries[i] == rest[i]);
            } else {
                assert(entries[entries.len() - 1] == last);
            }
        }
    }
}

/// The index of unspent outputs.
#[derive(Debug)]
pub struct UtxoSet {
    entries: Vec<UtxoEntry>,
}

impl View for UtxoSet {
    type V = UtxoMap;

    closed spec fn view(&self) -> UtxoMap {
        entries_map(self.entries@)
    }
}

impl UtxoSet {
    /// No two entries have the same key.
    #[verifier::type_invariant]
    spec fn keys_are_distinct(self) -> bool {
        distinct_keys(self.entries@)
    }

    /// The entries in the order in which they are kept.
    pub closed spec fn entries(&self) -> Seq<UtxoEntry> {
        self.entries@
    }

    /// An empty index.
    pub fn new() -> (set: UtxoSet)
        ensures
            set@ == UtxoMap::empty(),
            set.entries() == Seq::<UtxoEntry>::empty(),
    {
        let set = UtxoSet { entries: Vec::new() };
        assert(set@ =~= UtxoMap::empty());
        set
    }

    /// The index with the given entries, or `None` where two of them share a key.
    pub fn from_entries(entries: Vec<UtxoEntry>) -> (r: Option<UtxoSet>)
        ensures
            match r {
                Some(set) => distinct_keys(entries@) && set.entries() == entries@,
                None => !distinct_keys(entries@),
            },
    {
        let mut j: usize = 0;
        while j < entries.len()
            invariant
                0 <= j <= entries.len(),
                distinct_keys(entries@.take(j as int)),
            decreases entries.len() - j,
        {
            let mut i: usize = 0;
            while i < j
                invariant
                    0 <= i <= j < entries.len(),
                    forall|a: int| 0 <= a < i ==> (#[trigger] entries@[a]).key != entries@[j as int].key,
                decreases j - i,
            {
                if entries[i].key == entries[j].key {
                    return None;
                }
                i += 1;
            }
            assert forall|a: int, b: int| 0 <= a < b < j + 1 implies (#[trigger] entries@.take(
                j + 1,
            )[a]).key != (#[trigger] entries@.take(j + 1)[b]).key by {
                if b < j {
                    assert(entries@.take(j as int)[a].key != entries@.take(j as int)[b].key);
                }
            }
            j += 1;
        }
        assert(entries@.take(j as int) =~= entries@);
        Some(UtxoSet { entries })
    }

    /// The number of entries; the index holds its entries under distinct keys.
    pub fn len(&self) -> (n: usize)
        ensures
            n == self.entries().len(),
            distinct_keys(self.entries()),
            self@ == entries_map(self.entries()),
    {
        proof {
            use_type_invariant(self);
        }
        self.entries.len()
    }

    /// The entry at place `i`.
    pub fn entry_at(&self, i: usize) -> (entry: UtxoEntry)
        requires
            i < self.entries().len(),
        ensures
            entry == self.entries()[i as int],
            self@.contains_key(entry.key),
            self@[entry.key] == (entry.reserved, entry.output),
    {
        proof {
            use_type_invariant(self);
            lemma_map_of_entry(self.entries@, i as int);
        }
        self.entries[i]
    }

    /// The unspent outputs that are made over to `key`, each with its reservation flag.
    pub fn outputs_of(&self, key: &PublicKey) -> (found: Vec<(TransactionOutput, bool)>)
        ensures
            found@ == owned_by(self.entries(), *key),
    {
        let mut found: Vec<(TransactionOutput, bool)> = Vec::new();
        let mut i: usize = 0;
        while i < self.entries.len()
            invariant
                0 <= i <= self.entries.len(),
                found@ == owned_by(self.entries@.take(i as int), *key),
            decreases self.entries.len() - i,
        {
            assert(self.entries@.take(i + 1).drop_last() =~= self.entries@.take(i as int));
            if self.entries[i].output.pubkey == *key {
                found.push((self.entries[i].output, self.entries[i].reserved));
            }
            i += 1;
        }
        assert(self.entries@.take(i as int) =~= self.entries@);
        found
    }

    /// The place of the entry with the key `key`.
    fn position(&self, key: &crate::sha256::Hash) -> (r: Option<usize>)
        ensures
            match r {
                Some(i) => i < self.entries@.len() && self.entries@[i as int].key == *key,
                None => !has_key(self.entries@, *key),
            },
    {
        let mut i: usize = 0;
        while i < self.entries.len()
            invariant
                0 <= i <= self.entries.len(),
                forall|a: int| 0 <= a < i ==> (#[trigger] self.entries@[a]).key != *key,
            decreases self.entries.len() - i,
        {
            if self.entries[i].key == *key {
                return Some(i);
            }
            i += 1;
        }
        None
    }

    /// Whether the index holds an output under `key`.
    pub fn contains_key(&self, key: &crate::sha256::Hash) -> (r: bool)
        ensures
            r == self@.contains_key(*key),
    {
        self.position(key).is_some()
    }

    /// What the index holds under `key`.
    pub fn get(&self, key: &crate::sha256::Hash) -> (r: Option<(bool, TransactionOutput)>)
        ensures
            r == if self@.contains_key(*key) {
                Some(self@[*key])
            } else {
                None
            },
    {
        match self.position(key) {
            Some(i) => {
                proof {
                    use_type_invariant(self);
                    lemma_map_of_entry(self.entries@, i as int);
                }
                Some((self.entries[i].reserved, self.entries[i].output))
            },
            None => None,
        }
    }

    /// Puts `output` under `key` with the given flag, in place of what was there.
    pub fn insert(&mut self, key: crate::sha256::Hash, reserved: bool, output: TransactionOutput)
        ensures
            final(self)@ == old(self)@.insert(key, (reserved, output)),
    {
        proof {
            use_type_invariant(&*self);
        }
        let entry = UtxoEntry { key, reserved, output };
        let found: Option<usize> = self.position(&key);
        let mut entries: Vec<UtxoEntry> = self.take_entries();
        match found {
            Some(i) => {
                proof {
                    lemma_map_update(entries@, i as int, entry);
                }
                entries.set(i, entry);
            },
            None => {
                proof {
                    lemma_map_push(entries@, entry);
                }
                entries.push(entry);
            },
        }
        self.entries = entries;
    }

    /// Moves the entries out and leaves the index empty.
    fn take_entries(&mut self) -> (entries: Vec<UtxoEntry>)
        ensures
            entries@ == old(self).entries@,
            final(self).entries@ == Seq::<UtxoEntry>::empty(),
    {
        let mut entries: Vec<UtxoEntry> = Vec::new();
        core::mem::swap(&mut self.entries, &mut entries);
        entries
    }

    /// Takes out what the index holds under `key`.
    pub fn remove(&mut self, key: &crate::sha256::Hash)
        ensures
            final(self)@ == old(self)@.remove(*key),
    {
        proof {
            use_type_invariant(&*self);
        }
        match self.position(key) {
            Some(i) => {
                let mut entries: Vec<UtxoEntry> = self.take_entries();
                proof {
                    lemma_map_remove(entries@, i as int);
                }
                entries.remove(i);
                self.entries = entries;
            },
            None => {
                assert(self@ =~= old(self)@.remove(*key));
            },
        }
    }

    /// Sets the reservation flag of the output under `key`, if there is one.
    pub fn set_reserved(&mut self, key: &crate::sha256::Hash, reserved: bool)
        ensures
            final(self)@ == spec_set_reserved(old(self)@, *key, reserved),
    {
        proof {
            use_type_invariant(&*self);
        }
        match self.position(key) {
            Some(i) => {
                let entry = UtxoEntry { key: *key, reserved, output: self.entries[i].output };
                proof {
                    lemma_map_of_entry(self.entries@, i as int);
                    lemma_map_update(self.entries@, i as int, entry);
                }
                let mut entries: Vec<UtxoEntry> = self.take_entries();
                entries.set(i, entry);
                self.entries = entries;
            },
            None => {},
        }
    }
}

impl Clone for UtxoSet {
    fn clone(&self) -> (r: Self)
        ensures
            r@ == self@,
            r.entries() == self.entries(),
    {
        proof {
            use_type_invariant(self);
        }
        let mut entries: Vec<UtxoEntry> = Vec::new();
        let mut i: usize = 0;
        while i < self.entries.len()
            invariant
                0 <= i <= self.entries.len(),
                entries@ == self.entries@.take(i as int),
            decreases self.entries.len() - i,
        {
            entries.push(self.entries[i]);
            assert(self.entries@.take(i + 1) =~= self.entries@.take(i as int).push(
                self.entries@[i as int],
            ));
            i += 1;
        }
        assert(self.entries@.take(i as int) =~= self.entries@);
        UtxoSet { entries }
    }
}

/// The value that an input brings in: that of the output it refers to; zero where the
/// index holds no such output.
pub open spec fn input_value(input: TransactionInput, utxos: UtxoMap) -> nat {
    if utxos.contains_key(input.prev_transaction_output_hash) {
        utxos[input.prev_transaction_output_hash].1.value as nat
    } else {
        0
    }
}

/// The sum of the values that a sequence of inputs brings in.
pub open spec fn input_total(inputs: Seq<TransactionInput>, utxos: UtxoMap) -> nat
    decreases inputs.len(),
{
    if inputs.len() == 0 {
        0
    } else {
        input_total(inputs.drop_last(), utxos) + input_value(inputs.last(), utxos)
    }
}

/// A sum of inputs is at most their number times the largest value.
pub proof fn lemma_input_total_bound(inputs: Seq<TransactionInput>, utxos: UtxoMap)
    ensures
        input_total(inputs, utxos) <= inputs.len() * 0xFFFF_FFFF_FFFF_FFFF,
    decreases inputs.len(),
{
    if inputs.len() > 0 {
        lemma_input_total_bound(inputs.drop_last(), utxos);
    }
}

/// The sum of the values that some inputs bring in.
pub fn sum_inputs(inputs: &Vec<TransactionInput>, utxos: &UtxoSet) -> (sum: u128)
    ensures
        sum == input_total(inputs@, utxos@),
{
    let mut sum: u128 = 0;
    let mut i: usize = 0;
    while i < inputs.len()
        invariant
            0 <= i <= inputs.len(),
            sum == input_total(inputs@.take(i as int), utxos@),
        decreases inputs.len() - i,
    {
        proof {
            lemma_input_total_bound(inputs@.take(i as int), utxos@);
            assert(inputs@.take(i + 1).drop_last() =~= inputs@.take(i as int));
        }
        let value: u64 = match utxos.get(&inputs[i].prev_transaction_output_hash) {
            Some(found) => found.1.value,
            None => 0,
        };
        sum = sum + value as u128;
        i += 1;
    }
    assert(inputs@.take(i as int) =~= inputs@);
    sum
}

/// The map with the flag under `key` set to `reserved`; the same map where `key` is absent.
pub open spec fn spec_set_reserved(map: UtxoMap, key: crate::sha256::Hash, reserved: bool) -> UtxoMap {
    if map.contains_key(key) {
        map.insert(key, (reserved, map[key].1))
    } else {
        map
    }
}

} // verus!
