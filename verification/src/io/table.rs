//! Encounter-order dictionaries: each distinct value gets the next unused
//! index the first time it is seen.

use vstd::prelude::*;
use indexmap::IndexMap;

verus! {

/// `indexmap::IndexMap`: a hash map whose entries stand in the order in
/// which their keys were first inserted, whatever the keys hash to.
#[verifier::external_type_specification]
#[verifier::external_body]
#[verifier::reject_recursive_types(K)]
#[verifier::reject_recursive_types(V)]
#[verifier::reject_recursive_types(S)]
pub struct ExIndexMap<K, V, S>(IndexMap<K, V, S>);

/// The entries of a map, key and value, in the map's order.
pub uninterp spec fn table_entries(table: IndexMap<u64, u16>) -> Seq<(u64, u16)>;

/// Some entry has the key.
pub open spec fn has_key(entries: Seq<(u64, u16)>, key: u64) -> bool {
    exists|i: int| 0 <= i < entries.len() && (#[trigger] entries[i]).0 == key
}

/// `IndexMap::new`: a map without entries.
#[verifier::external_body]
fn table_new() -> (table: IndexMap<u64, u16>)
    ensures
        table_entries(table) == Seq::<(u64, u16)>::empty(),
{
    IndexMap::new()
}

/// `IndexMap::len`: the number of entries.
#[verifier::external_body]
fn table_len(table: &IndexMap<u64, u16>) -> (n: usize)
    ensures
        n == table_entries(*table).len(),
{
    table.len()
}

/// `IndexMap::entry` followed by `Entry::or_insert`. Where an entry has the
/// key, the map stays as it is and the value of such an entry is returned.
/// Where none has, `(key, fresh)` becomes the last entry and `fresh` is
/// returned.
#[verifier::external_body]
fn table_or_insert(table: &mut IndexMap<u64, u16>, key: u64, fresh: u16) -> (value: u16)
    ensures
        has_key(table_entries(*old(table)), key) ==> {
            &&& table_entries(*final(table)) == table_entries(*old(table))
            &&& table_entries(*old(table)).contains((key, value))
        },
        !has_key(table_entries(*old(table)), key) ==> {
            &&& table_entries(*final(table)) == table_entries(*old(table)).push((key, fresh))
            &&& value == fresh
        },
{
    *table.entry(key).or_insert(fresh)
}

/// `IndexMap::get`: the value of an entry that has the key, or nothing where
/// no entry has it.
#[verifier::external_body]
fn table_get(table: &IndexMap<u64, u16>, key: u64) -> (value: Option<u16>)
    ensures
        match value {
            Some(v) => table_entries(*table).contains((key, v)),
            None => !has_key(table_entries(*table), key),
        },
{
    table.get(&key).copied()
}

/// `IndexMap::keys`: the keys of the entries, in the map's order.
#[verifier::external_body]
fn table_keys(table: &IndexMap<u64, u16>) -> (keys: Vec<u64>)
    ensures
        keys@ == table_entries(*table).map_values(|e: (u64, u16)| e.0),
{
    table.keys().copied().collect()
}

/// The distinct values of a sequence, each at the place of its first
/// occurrence among them.
pub open spec fn dedup(values: Seq<u64>) -> Seq<u64>
    decreases values.len(),
{
    if values.len() == 0 {
        Seq::empty()
    } else {
        seen_then(dedup(values.drop_last()), values.last())
    }
}

/// A dictionary after one more value was seen.
pub open spec fn seen_then(dict: Seq<u64>, value: u64) -> Seq<u64> {
    if dict.contains(value) {
        dict
    } else {
        dict.push(value)
    }
}

/// The index of a value in a dictionary that holds it.
pub open spec fn position(dict: Seq<u64>, value: u64) -> int {
    choose|i: int| 0 <= i < dict.len() && dict[i] == value
}

/// A dictionary of what was seen holds nothing twice, holds every value that
/// was seen, and has at most as many entries as values were seen.
pub proof fn lemma_dedup(values: Seq<u64>)
    ensures
        dedup(values).no_duplicates(),
        dedup(values).len() <= values.len(),
        forall|i: int| 0 <= i < values.len() ==> dedup(values).contains(#[trigger] values[i]),
    decreases values.len(),
{
    if values.len() > 0 {
        let init = values.drop_last();
        lemma_dedup(init);
        let d = dedup(init);
        let after = seen_then(d, values.last());
        assert forall|i: int| 0 <= i < values.len() implies after.contains(
            #[trigger] values[i],
        ) by {
            if i < values.len() - 1 {
                assert(values[i] == init[i]);
                let j = choose|j: int| 0 <= j < d.len() && d[j] == init[i];
                assert(after[j] == values[i]);
            } else if d.contains(values.last()) {
            } else {
                assert(after[d.len() as int] == values.last());
            }
        }
    }
}

/// In a dictionary without repetition, a value stands at one index only.
pub proof fn lemma_position(dict: Seq<u64>, i: int)
    requires
        dict.no_duplicates(),
        0 <= i < dict.len(),
    ensures
        position(dict, dict[i]) == i,
{
}

/// A dictionary that fills as values are seen.
pub struct DedupTable {
    map: IndexMap<u64, u16>,
}

impl DedupTable {
    /// The values seen so far, each at its index.
    pub closed spec fn dict(&self) -> Seq<u64> {
        table_entries(self.map).map_values(|e: (u64, u16)| e.0)
    }

    /// Every entry holds its own index, no value stands twice, and the
    /// indices fit in sixteen bits.
    pub closed spec fn wf(&self) -> bool {
        &&& table_entries(self.map).len() <= 0x10000
        &&& forall|i: int|
            0 <= i < table_entries(self.map).len() ==> (#[trigger] table_entries(self.map)[i]).1
                == i
        &&& self.dict().no_duplicates()
    }

    /// A well-formed dictionary holds no value twice and at most 65536
    /// values, so that a value stands at one index only.
    pub proof fn lemma_distinct(&self)
        requires
            self.wf(),
        ensures
            self.dict().no_duplicates(),
            self.dict().len() <= 0x10000,
            forall|i: int|
                0 <= i < self.dict().len() ==> position(self.dict(), #[trigger] self.dict()[i])
                    == i,
    {
        assert forall|i: int| 0 <= i < self.dict().len() implies position(
            self.dict(),
            #[trigger] self.dict()[i],
        ) == i by {
            lemma_position(self.dict(), i);
        }
    }

    /// A dictionary that has seen nothing.
    pub fn new() -> (table: Self)
        ensures
            table.wf(),
            table.dict() == Seq::<u64>::empty(),
    {
        let table = DedupTable { map: table_new() };
        assert(table.dict() =~= Seq::<u64>::empty());
        table
    }

    /// The number of values seen.
    pub fn len(&self) -> (n: usize)
        ensures
            n == self.dict().len(),
    {
        table_len(&self.map)
    }

    /// Sees a value and returns its index: the one it has, or the next unused
    /// one. Nothing is done where the value is new and all 65536 indices are
    /// used.
    pub fn intern(&mut self, value: u64) -> (index: Option<u16>)
        requires
            old(self).wf(),
        ensures
            final(self).wf(),
            match index {
                Some(i) => {
                    &&& final(self).dict() == seen_then(old(self).dict(), value)
                    &&& i < final(self).dict().len()
                    &&& final(self).dict()[i as int] == value
                },
                None => {
                    &&& !old(self).dict().contains(value)
                    &&& old(self).dict().len() == 0x10000
                    &&& final(self).dict() == old(self).dict()
                },
            },
    {
        match self.find(value) {
            Some(index) => {
                return Some(index);
            },
            None => {},
        }
        let n = table_len(&self.map);
        if n >= 0x10000 {
            return None;
        }
        let ghost before = table_entries(self.map);
        let ghost dict = self.dict();
        let index = table_or_insert(&mut self.map, value, n as u16);
        proof {
            if has_key(before, value) {
                let i = choose|i: int| 0 <= i < before.len() && (#[trigger] before[i]).0 == value;
                assert(dict[i] == value);
            }
            assert(self.dict() =~= dict.push(value));
            assert forall|i: int, j: int|
                0 <= i < self.dict().len() && 0 <= j < self.dict().len() && i
                    != j implies self.dict()[i] != self.dict()[j] by {
                if i < dict.len() && j < dict.len() {
                } else if i < dict.len() {
                    assert(dict[i] == before[i].0);
                } else {
                    assert(dict[j] == before[j].0);
                }
            }
        }
        Some(index)
    }

    /// The index of a value, where it was seen.
    pub fn find(&self, value: u64) -> (index: Option<u16>)
        requires
            self.wf(),
        ensures
            match index {
                Some(i) => i < self.dict().len() && self.dict()[i as int] == value,
                None => !self.dict().contains(value),
            },
    {
        let found = table_get(&self.map, value);
        proof {
            let entries = table_entries(self.map);
            match found {
                Some(v) => {
                    let i = choose|i: int| 0 <= i < entries.len() && entries[i] == (value, v);
                    assert(self.dict()[i] == value);
                },
                None => {
                    if self.dict().contains(value) {
                        let j = choose|j: int| 0 <= j < self.dict().len() && self.dict()[j]
                            == value;
                        assert(entries[j].0 == value);
                    }
                },
            }
        }
        found
    }

    /// The values seen, in the order of their indices.
    pub fn values(&self) -> (values: Vec<u64>)
        ensures
            values@ == self.dict(),
    {
        table_keys(&self.map)
    }
}

} // verus!
