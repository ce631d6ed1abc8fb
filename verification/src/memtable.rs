//! The in-memory write buffer: a sorted mapping from key to value that
//! tracks how many bytes its entries hold.
use vstd::prelude::*;
use crate::entries::{as_map, clone_entries, find_key, put_entry, sorted,
    take_entry, total_bytes, lemma_as_map_len, lemma_bytes_of_key_bounded};
use crate::{Key, Value};

verus! {

/// A sorted mapping from key to value with a running byte count.
pub struct MemTable {
    data: Vec<(Key, Value)>,
    size: usize,
}

impl View for MemTable {
    type V = Map<Seq<u8>, Seq<u8>>;

    /// The mapping that the table holds.
    open spec fn view(&self) -> Map<Seq<u8>, Seq<u8>> {
        as_map(self.entries())
    }
}

impl MemTable {
    /// The entries of the table, in ascending key order.
    pub closed spec fn entries(&self) -> Seq<(Seq<u8>, Seq<u8>)> {
        self.data.deep_view()
    }

    /// The byte count that the table carries.
    pub closed spec fn byte_count(&self) -> nat {
        self.size as nat
    }

    /// The table is well formed: its entries are in strictly ascending key
    /// order, and its byte count is the sum of the lengths of all keys and
    /// values it holds.
    pub open spec fn wf(&self) -> bool {
        &&& sorted(self.entries())
        &&& self.byte_count() == total_bytes(self.entries())
    }

    /// The bytes that the entry for `key` holds, and zero if there is none.
    pub open spec fn entry_bytes(&self, key: Seq<u8>) -> nat {
        if self@.contains_key(key) {
            key.len() + self@[key].len()
        } else {
            0
        }
    }

    /// An empty table.
    pub fn new() -> (table: Self)
        ensures
            table.wf(),
            table.entries() == Seq::<(Seq<u8>, Seq<u8>)>::empty(),
            table@ == Map::<Seq<u8>, Seq<u8>>::empty(),
            table.byte_count() == 0,
    {
        let table = MemTable { data: Vec::new(), size: 0 };
        assert(table.entries() =~= Seq::<(Seq<u8>, Seq<u8>)>::empty());
        assert(table@ =~= Map::<Seq<u8>, Seq<u8>>::empty());
        table
    }

    /// Maps `key` to `value` and returns the value that `key` had before.
    /// The byte count gives up what the old entry held, saturating at zero,
    /// and takes on the lengths of `key` and `value`.
    pub fn insert(&mut self, key: Key, value: Value) -> (previous: Option<Value>)
        requires
            old(self).wf(),
            old(self).byte_count() - old(self).entry_bytes(key@) + key@.len() + value@.len()
                <= usize::MAX,
        ensures
            final(self).wf(),
            final(self)@ == old(self)@.insert(key@, value@),
            previous.deep_view() == if old(self)@.contains_key(key@) {
                Some(old(self)@[key@])
            } else {
                None
            },
            final(self).byte_count() == old(self).byte_count() - old(self).entry_bytes(key@)
                + key@.len() + value@.len(),
    {
        let key_len = key.len();
        let value_len = value.len();
        proof {
            lemma_bytes_of_key_bounded(self.entries(), key@);
        }
        let previous = put_entry(&mut self.data, key, value);
        let released: usize = match &previous {
            Some(old_value) => key_len + old_value.len(),
            None => 0,
        };
        self.size = self.size.saturating_sub(released);
        self.size = self.size + key_len + value_len;
        assert(self@ =~= old(self)@.insert(key@, value@));
        previous
    }

    /// The value that `key` is mapped to, if any.
    pub fn get(&self, key: &[u8]) -> (found: Option<&Value>)
        requires
            self.wf(),
        ensures
            found.deep_view() == if self@.contains_key(key@) {
                Some(self@[key@])
            } else {
                None
            },
    {
        let (pos, present) = find_key(&self.data, key);
        if present {
            proof {
                crate::entries::lemma_sorted_lookup(self.entries(), pos as int);
            }
            Some(&self.data[pos].1)
        } else {
            None
        }
    }

    /// Takes `key` out of the table and returns the value it was mapped to.
    /// The byte count gives up what the entry held.
    pub fn remove(&mut self, key: &[u8]) -> (removed: Option<Value>)
        requires
            old(self).wf(),
        ensures
            final(self).wf(),
            final(self)@ == old(self)@.remove(key@),
            removed.deep_view() == if old(self)@.contains_key(key@) {
                Some(old(self)@[key@])
            } else {
                None
            },
            final(self).byte_count() == old(self).byte_count() - old(self).entry_bytes(key@),
    {
        proof {
            lemma_bytes_of_key_bounded(self.entries(), key@);
        }
        let removed = take_entry(&mut self.data, key);
        match &removed {
            Some(value) => {
                self.size = self.size - (key.len() + value.len());
            },
            None => {},
        }
        assert(self@ =~= old(self)@.remove(key@));
        removed
    }

    /// The byte count: the sum of the lengths of all keys and values held.
    pub fn size(&self) -> (bytes: usize)
        requires
            self.wf(),
        ensures
            bytes == self.byte_count(),
            bytes == total_bytes(self.entries()),
    {
        self.size
    }

    /// Whether the table holds no entry.
    pub fn is_empty(&self) -> (empty: bool)
        requires
            self.wf(),
        ensures
            empty == (self.entries().len() == 0),
            empty == (self@ == Map::<Seq<u8>, Seq<u8>>::empty()),
    {
        proof {
            lemma_as_map_len(self.entries());
            if self.entries().len() == 0 {
                assert(self@ =~= Map::<Seq<u8>, Seq<u8>>::empty());
            }
        }
        self.data.len() == 0
    }

    /// The number of keys in the table.
    pub fn len(&self) -> (count: usize)
        requires
            self.wf(),
        ensures
            count == self.entries().len(),
            count == self@.dom().len(),
    {
        proof {
            lemma_as_map_len(self.entries());
        }
        self.data.len()
    }

    /// The entries of the table in ascending key order.
    pub fn iter(&self) -> (all: Vec<(Key, Value)>)
        requires
            self.wf(),
        ensures
            all.deep_view() == self.entries(),
            sorted(all.deep_view()),
            as_map(all.deep_view()) == self@,
    {
        clone_entries(&self.data)
    }
}

} // verus!
