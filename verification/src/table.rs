//! The index: every key with its current value.

use crate::codec::{
    decode_snapshot, encode_key, encode_value, entry_texts, frame_snapshot, json_text, key_text,
    pair_views, same_bytes, snapshot_of, snapshot_text,
};
use vstd::hash_map::StringHashMap;
use vstd::prelude::*;

verus! {

/// What an index holds, each value taken by its text: the keys in the order
/// in which they were first written, and the text of the current value of
/// each.
#[verifier::ext_equal]
pub struct Table {
    pub keys: Seq<Seq<char>>,
    pub texts: Map<Seq<char>, Seq<u8>>,
}

impl Table {
    /// The table without any key.
    pub open spec fn empty() -> Table {
        Table { keys: Seq::empty(), texts: Map::empty() }
    }

    /// This table once `key` has been written with a value of text `text`:
    /// the key keeps its place if it has one, and comes last if not.
    pub open spec fn put(self, key: Seq<char>, text: Seq<u8>) -> Table {
        Table {
            keys: if self.texts.contains_key(key) {
                self.keys
            } else {
                self.keys.push(key)
            },
            texts: self.texts.insert(key, text),
        }
    }

    /// This table once every entry of `entries` has been written, in order.
    pub open spec fn put_all(self, entries: Seq<(Seq<char>, Seq<u8>)>) -> Table
        decreases entries.len(),
    {
        if entries.len() == 0 {
            self
        } else {
            self.put_all(entries.drop_last()).put(entries.last().0, entries.last().1)
        }
    }

    /// Whether `keys` lists every key of `texts`, and each once.
    pub open spec fn well_formed(self) -> bool {
        &&& forall|i: int, j: int|
            0 <= i < j < self.keys.len() ==> #[trigger] self.keys[i] != #[trigger] self.keys[j]
        &&& forall|i: int| 0 <= i < self.keys.len() ==> self.texts.contains_key(#[trigger] self.keys[i])
        &&& forall|key: Seq<char>| #[trigger]
            self.texts.contains_key(key) ==> self.keys.contains(key)
    }

    /// The entries in the order of the keys, each as the text of its key and
    /// the text of its value.
    pub open spec fn encoded(self) -> Seq<(Seq<u8>, Seq<u8>)> {
        Seq::new(self.keys.len(), |i: int| (key_text(self.keys[i]), self.texts[self.keys[i]]))
    }
}

/// Whether the snapshot of `table` is read back as written: it holds every
/// key of the table with the text of its value, in whatever order, and no
/// other key.
pub open spec fn snapshot_reads_back(table: Table) -> bool {
    snapshot_of(snapshot_text(table.encoded())) matches Some(base) && Table::empty().put_all(
        base,
    ).texts == table.texts
}

/// Writing into a well-formed table leaves it well-formed.
pub proof fn lemma_put_well_formed(table: Table, key: Seq<char>, text: Seq<u8>)
    requires
        table.well_formed(),
    ensures
        table.put(key, text).well_formed(),
{
    let after = table.put(key, text);
    if table.texts.contains_key(key) {
        assert forall|other: Seq<char>| #[trigger] after.texts.contains_key(other) implies after.keys.contains(other) by {
            assert(table.texts.contains_key(other));
        }
    } else {
        assert forall|i: int, j: int| 0 <= i < j < after.keys.len() implies #[trigger] after.keys[i] != #[trigger] after.keys[j] by {
            if j == table.keys.len() {
                assert(table.texts.contains_key(table.keys[i]));
            }
        }
        assert forall|other: Seq<char>| #[trigger] after.texts.contains_key(other) implies after.keys.contains(other) by {
            if other == key {
                assert(after.keys[table.keys.len() as int] == key);
            } else {
                assert(table.texts.contains_key(other));
                let i = choose|i: int| 0 <= i < table.keys.len() && table.keys[i] == other;
                assert(after.keys[i] == other);
            }
        }
    }
}

/// The contents of the keys held in `keys`.
pub open spec fn key_views(keys: Seq<String>) -> Seq<Seq<char>> {
    Seq::new(keys.len(), |i: int| keys[i]@)
}

/// The table of the values `values` under the keys `keys`.
pub open spec fn table_of(keys: Seq<Seq<char>>, values: Map<Seq<char>, serde_json::Value>) -> Table {
    Table { keys, texts: values.map_values(|value: serde_json::Value| json_text(value)) }
}

/// The map `values` once every entry of `entries` has been written, in order.
pub open spec fn written(
    values: Map<Seq<char>, serde_json::Value>,
    entries: Seq<(String, serde_json::Value)>,
) -> Map<Seq<char>, serde_json::Value>
    decreases entries.len(),
{
    if entries.len() == 0 {
        values
    } else {
        written(values, entries.drop_last()).insert(entries.last().0@, entries.last().1)
    }
}

/// The index of a store: a hash map from key to value, beside the list of
/// its keys in the order in which they were first written.
pub struct Index {
    map: StringHashMap<serde_json::Value>,
    keys: Vec<String>,
}

impl Index {
    /// The value of each key.
    pub closed spec fn values(&self) -> Map<Seq<char>, serde_json::Value> {
        self.map@
    }

    /// The keys in the order in which they were first written.
    pub closed spec fn keys(&self) -> Seq<Seq<char>> {
        key_views(self.keys@)
    }

    /// The index with each value taken by its text.
    pub open spec fn table(&self) -> Table {
        table_of(self.keys(), self.values())
    }

    /// Every index lists each of its keys once.
    #[verifier::type_invariant]
    pub open spec fn well_formed(&self) -> bool {
        self.table().well_formed()
    }

    /// An index without any key.
    pub fn new() -> (index: Self)
        ensures
            index.values() == Map::<Seq<char>, serde_json::Value>::empty(),
            index.table() == Table::empty(),
    {
        let index = Index { map: StringHashMap::new(), keys: Vec::new() };
        assert(index.table().texts =~= Map::<Seq<char>, Seq<u8>>::empty());
        assert(index.table().keys =~= Seq::<Seq<char>>::empty());
        index
    }

    /// The value of `key`, if it has one.
    pub fn get(&self, key: &str) -> (value: Option<&serde_json::Value>)
        ensures
            match value {
                Some(found) => self.values().contains_key(key@) && *found == self.values()[key@],
                None => !self.values().contains_key(key@),
            },
    {
        self.map.get(key)
    }

    /// Writes `value` under `key`, in place of the value that the key may have.
    pub fn insert(&mut self, key: String, value: serde_json::Value)
        ensures
            final(self).values() == old(self).values().insert(key@, value),
            final(self).table() == old(self).table().put(key@, json_text(value)),
    {
        proof {
            use_type_invariant(&*self);
            lemma_put_well_formed(self.table(), key@, json_text(value));
        }
        let ghost before = self.table();
        let mut whole = Index::new();
        std::mem::swap(self, &mut whole);
        let Index { mut map, mut keys } = whole;
        if !map.contains_key(key.as_str()) {
            keys.push(key.clone());
        }
        map.insert(key, value);
        proof {
            let after = table_of(key_views(keys@), map@);
            let expected = before.put(key@, json_text(value));
            assert(after.texts =~= expected.texts);
            assert(after.keys =~= expected.keys);
        }
        *self = Index { map, keys };
    }

    /// Writes every entry of `entries`, in order.
    pub fn insert_all(&mut self, entries: Vec<(String, serde_json::Value)>)
        ensures
            final(self).values() == written(old(self).values(), entries@),
            final(self).table() == old(self).table().put_all(entry_texts(entries@)),
    {
        let ghost all = entries@;
        assert(all.take(0) =~= Seq::<(String, serde_json::Value)>::empty());
        assert(entry_texts(all.take(0)) =~= Seq::<(Seq<char>, Seq<u8>)>::empty());
        for entry in it: entries
            invariant
                it.seq() == all,
                self.values() == written(old(self).values(), all.take(it.index() as int)),
                self.table() == old(self).table().put_all(entry_texts(all.take(it.index() as int))),
        {
            let ghost done = all.take(it.index() as int);
            let ghost next = all.take(it.index() + 1);
            assert(next.drop_last() =~= done);
            assert(entry_texts(next).drop_last() =~= entry_texts(done));
            let (key, value) = entry;
            self.insert(key, value);
        }
        assert(all.take(all.len() as int) =~= all);
    }

    /// The text of every key and of its value, in the order of the keys:
    /// always there.
    pub fn encode(&self) -> (entries: Option<Vec<(Vec<u8>, Vec<u8>)>>)
        ensures
            entries matches Some(encoded) && pair_views(encoded@) == self.table().encoded(),
    {
        proof {
            use_type_invariant(self);
        }
        let mut encoded: Vec<(Vec<u8>, Vec<u8>)> = Vec::new();
        let mut i: usize = 0;
        while i < self.keys.len()
            invariant
                i <= self.keys@.len(),
                self.table().well_formed(),
                self.table().encoded().len() == self.keys@.len(),
                encoded@.len() == i,
                pair_views(encoded@) == self.table().encoded().subrange(0, i as int),
            decreases self.keys@.len() - i,
        {
            let key = self.keys[i].as_str();
            assert(self.keys()[i as int] == key@);
            assert(self.table().texts.contains_key(self.table().keys[i as int]));
            let value = match self.map.get(key) {
                Some(value) => value,
                None => { return None; },
            };
            let key_bytes = match encode_key(key) {
                Some(bytes) => bytes,
                None => { return None; },
            };
            let value_bytes = match encode_value(value) {
                Some(bytes) => bytes,
                None => { return None; },
            };
            let ghost before = encoded@;
            encoded.push((key_bytes, value_bytes));
            assert(self.table().texts[key@] == json_text(*value));
            assert(self.table().encoded()[i as int] == (key_bytes@, value_bytes@));
            assert forall|j: int| 0 <= j <= i implies pair_views(encoded@)[j]
                == self.table().encoded()[j] by {
                if j < i {
                    assert(pair_views(before)[j] == self.table().encoded().subrange(0, i as int)[j]);
                }
            }
            i += 1;
            assert(pair_views(encoded@) =~= self.table().encoded().subrange(0, i as int));
        }
        assert(self.table().encoded().subrange(0, i as int) =~= self.table().encoded());
        Some(encoded)
    }

    /// Whether `other` gives every key the value text that this index gives
    /// it, and no other key a value.
    pub fn same_texts(&self, other: &Index) -> (same: bool)
        ensures
            same == (self.table().texts == other.table().texts),
    {
        proof {
            use_type_invariant(self);
            use_type_invariant(other);
        }
        let mut i: usize = 0;
        while i < self.keys.len()
            invariant
                i <= self.keys@.len(),
                self.table().well_formed(),
                forall|j: int|
                    0 <= j < i ==> other.table().texts.contains_key(#[trigger] self.keys()[j])
                        && other.table().texts[self.keys()[j]] == self.table().texts[self.keys()[j]],
            decreases self.keys@.len() - i,
        {
            let key = self.keys[i].as_str();
            assert(self.keys()[i as int] == key@);
            assert(self.table().texts.contains_key(self.table().keys[i as int]));
            let mine = match self.map.get(key) {
                Some(value) => value,
                None => { return false; },
            };
            let theirs = match other.map.get(key) {
                Some(value) => value,
                None => { return false; },
            };
            let mine_text = match encode_value(mine) {
                Some(text) => text,
                None => { return false; },
            };
            let theirs_text = match encode_value(theirs) {
                Some(text) => text,
                None => { return false; },
            };
            assert(self.table().texts[key@] == mine_text@);
            assert(other.table().texts[key@] == theirs_text@);
            if !same_bytes(mine_text.as_slice(), theirs_text.as_slice()) {
                return false;
            }
            i += 1;
        }
        let mut k: usize = 0;
        while k < other.keys.len()
            invariant
                k <= other.keys@.len(),
                other.table().well_formed(),
                forall|j: int|
                    0 <= j < k ==> self.table().texts.contains_key(#[trigger] other.keys()[j]),
            decreases other.keys@.len() - k,
        {
            let key = other.keys[k].as_str();
            assert(other.keys()[k as int] == key@);
            assert(other.table().texts.contains_key(other.table().keys[k as int]));
            if !self.map.contains_key(key) {
                return false;
            }
            k += 1;
        }
        proof {
            let mine = self.table().texts;
            let theirs = other.table().texts;
            assert forall|key: Seq<char>| mine.contains_key(key) implies theirs.contains_key(key)
                && theirs[key] == mine[key] by {
                assert(self.table().keys.contains(key));
                let j = choose|j: int| 0 <= j < self.keys().len() && self.keys()[j] == key;
                assert(other.table().texts.contains_key(self.keys()[j]));
            }
            assert forall|key: Seq<char>| theirs.contains_key(key) implies mine.contains_key(key) by {
                assert(other.table().keys.contains(key));
                let j = choose|j: int| 0 <= j < other.keys().len() && other.keys()[j] == key;
                assert(self.table().texts.contains_key(other.keys()[j]));
            }
            assert(mine =~= theirs);
        }
        true
    }

    /// Whether the snapshot of this index is read back as written: the
    /// snapshot is encoded, read, and what it holds is compared with the index.
    pub fn reads_back(&self) -> (ok: bool)
        ensures
            ok == snapshot_reads_back(self.table()),
    {
        let entries = match self.encode() {
            Some(entries) => entries,
            None => { return false; },
        };
        let text = frame_snapshot(&entries);
        let base = match decode_snapshot(text.as_slice()) {
            Some(base) => base,
            None => { return false; },
        };
        let mut read = Index::new();
        read.insert_all(base);
        self.same_texts(&read)
    }
}

} // verus!
