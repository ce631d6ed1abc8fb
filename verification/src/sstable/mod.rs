//! The on-disk table: an immutable run of entries behind a Bloom filter
//! over its keys.
//!
//! A table file holds the stored Bloom filter as a length-prefixed field,
//! then the entries up to the end of the file, each as two length-prefixed
//! fields: the key and the value.
use vstd::prelude::*;
use vstd::slice::slice_subrange;
use crate::bloom::{accepts, filter_bytes, stored_bits, stored_hash_count, with_element,
    BloomFilter, lemma_filter_round_trip, lemma_insert_accepts};
use crate::bytes::{bytes_eq, copy_range, field_bytes, parse_field, put_field, read_field,
    lemma_concat_assoc, lemma_parse_field_bytes, lemma_skip_concat};
use crate::entries::lookup;
use crate::error::FormatError;
use crate::{Key, Value};

pub mod compaction;

verus! {

/// The fewest entries that the Bloom filter of a table is sized for.
pub const EXPECTED_ENTRIES_PER_SSTABLE: usize = 1000;

/// The number of hash functions of the Bloom filter of a table: the optimal
/// number for a false-positive rate of 0.01.
pub const BLOOM_HASH_FUNCTIONS: usize = 7;

/// The number of bits of the Bloom filter of a table with `count` entries:
/// 9.585058377367439073 bits for each entry, and for at least a thousand
/// entries, rounded up to a whole number, and no more than `usize` holds.
/// The ratio is the optimal one for a false-positive rate of 0.01, the
/// negative logarithm of the rate over the square of the logarithm of 2, to
/// eighteen decimals.
pub open spec fn filter_bit_count(count: nat) -> nat {
    let expected: nat = if count > 1000 {
        count
    } else {
        1000
    };
    let bits = (expected * 9585058377367439073 + 999999999999999999) / 1000000000000000000;
    if bits > usize::MAX {
        usize::MAX as nat
    } else {
        bits as nat
    }
}

/// The bit array of a filter of `size` bits and `count` hash functions into
/// which the keys of `entries` were inserted.
pub open spec fn keys_filter(entries: Seq<(Seq<u8>, Seq<u8>)>, size: nat, count: nat) -> Seq<
    bool,
>
    decreases entries.len(),
{
    if entries.len() == 0 {
        Seq::new(size, |i: int| false)
    } else {
        with_element(keys_filter(entries.drop_last(), size, count), count, entries.last().0)
    }
}

/// The bytes of one entry: the key field, then the value field.
pub open spec fn entry_bytes(entry: (Seq<u8>, Seq<u8>)) -> Seq<u8> {
    field_bytes(entry.0) + field_bytes(entry.1)
}

/// The bytes of a sequence of entries, one after the other.
pub open spec fn entries_bytes(entries: Seq<(Seq<u8>, Seq<u8>)>) -> Seq<u8>
    decreases entries.len(),
{
    if entries.len() == 0 {
        Seq::empty()
    } else {
        entry_bytes(entries[0]) + entries_bytes(entries.skip(1))
    }
}

/// The stored form of the Bloom filter that a table with these entries
/// gets.
pub open spec fn table_filter_bytes(entries: Seq<(Seq<u8>, Seq<u8>)>) -> Seq<u8> {
    filter_bytes(
        keys_filter(entries, filter_bit_count(entries.len()), BLOOM_HASH_FUNCTIONS as nat),
        BLOOM_HASH_FUNCTIONS as nat,
    )
}

/// The bytes of the table file that holds `entries`.
pub open spec fn table_bytes(entries: Seq<(Seq<u8>, Seq<u8>)>) -> Seq<u8> {
    field_bytes(table_filter_bytes(entries)) + entries_bytes(entries)
}

/// Reads the entry at the start of `data`: the entry and the number of
/// bytes it takes. There is none if `data` ends before the entry does.
pub open spec fn parse_entry(data: Seq<u8>) -> Option<((Seq<u8>, Seq<u8>), int)> {
    match parse_field(data) {
        None => None,
        Some((key, key_used)) => match parse_field(data.skip(key_used)) {
            None => None,
            Some((value, value_used)) => Some(((key, value), key_used + value_used)),
        },
    }
}

/// Reads `data` as a sequence of entries, up to its end. An entry that
/// reaches past the end is an error.
pub open spec fn parse_entries(data: Seq<u8>) -> Result<Seq<(Seq<u8>, Seq<u8>)>, FormatError>
    decreases data.len(),
{
    if data.len() == 0 {
        Ok(Seq::empty())
    } else {
        match parse_entry(data) {
            None => Err(FormatError::Table),
            Some((entry, used)) => if 0 < used <= data.len() {
                match parse_entries(data.skip(used)) {
                    Err(e) => Err(e),
                    Ok(rest) => Ok(seq![entry] + rest),
                }
            } else {
                Err(FormatError::Table)
            },
        }
    }
}

/// Reads the entries of a table file: what follows the Bloom filter field.
pub open spec fn parse_table(data: Seq<u8>) -> Result<Seq<(Seq<u8>, Seq<u8>)>, FormatError> {
    match parse_field(data) {
        None => Err(FormatError::Table),
        Some((_, used)) => parse_entries(data.skip(used)),
    }
}

/// Scans `data`, a sequence of stored entries, for `key`: the value of the
/// first entry with that key, or nothing if the scan reaches the end. An
/// entry that cannot be read before the key is found is an error.
pub open spec fn scan_entries(data: Seq<u8>, key: Seq<u8>) -> Result<Option<Seq<u8>>, FormatError>
    decreases data.len(),
{
    if data.len() == 0 {
        Ok(None)
    } else {
        match parse_entry(data) {
            None => Err(FormatError::Table),
            Some((entry, used)) => if entry.0 == key {
                Ok(Some(entry.1))
            } else if 0 < used <= data.len() {
                scan_entries(data.skip(used), key)
            } else {
                Err(FormatError::Table)
            },
        }
    }
}

/// Scans a table file for `key`.
pub open spec fn scan_table(data: Seq<u8>, key: Seq<u8>) -> Result<Option<Seq<u8>>, FormatError> {
    match parse_field(data) {
        None => Err(FormatError::Table),
        Some((_, used)) => scan_entries(data.skip(used), key),
    }
}

/// The Bloom filter that a table file starts with: its bit array and its
/// number of hash functions. There is none if the file ends before the
/// filter field does, or if the field is shorter than a filter header.
pub open spec fn parse_table_filter(data: Seq<u8>) -> Option<(Seq<bool>, nat)> {
    match parse_field(data) {
        None => None,
        Some((payload, _)) => if payload.len() < 8 {
            None
        } else {
            Some((stored_bits(payload), stored_hash_count(payload)))
        },
    }
}

/// Entries that the format can hold: every key and value fits a 32-bit
/// length.
pub open spec fn storable(entries: Seq<(Seq<u8>, Seq<u8>)>) -> bool {
    forall|i: int|
        0 <= i < entries.len() ==> (#[trigger] entries[i]).0.len() <= u32::MAX
            && entries[i].1.len() <= u32::MAX
}

/// An entry that fits the format is read back as written, whatever follows
/// it.
pub proof fn lemma_parse_entry_bytes(entry: (Seq<u8>, Seq<u8>), rest: Seq<u8>)
    requires
        entry.0.len() <= u32::MAX,
        entry.1.len() <= u32::MAX,
    ensures
        entry_bytes(entry).len() == 8 + entry.0.len() + entry.1.len(),
        parse_entry(entry_bytes(entry) + rest) == Some((entry, entry_bytes(entry).len() as int)),
{
    let key = field_bytes(entry.0);
    let value = field_bytes(entry.1);
    let data = entry_bytes(entry) + rest;
    lemma_parse_field_bytes(entry.0, value + rest);
    lemma_parse_field_bytes(entry.1, rest);
    lemma_concat_assoc(key, value, rest);
    lemma_skip_concat(key, value + rest);
}

/// Adding an entry at the end adds its bytes at the end.
pub proof fn lemma_entries_bytes_push(entries: Seq<(Seq<u8>, Seq<u8>)>, entry: (Seq<u8>, Seq<u8>))
    ensures
        entries_bytes(entries.push(entry)) == entries_bytes(entries) + entry_bytes(entry),
    decreases entries.len(),
{
    let all = entries.push(entry);
    let last = entry_bytes(entry);
    if entries.len() == 0 {
        assert(all.skip(1) =~= Seq::empty());
        assert(all[0] == entry);
        assert(entries_bytes(all.skip(1)) == Seq::<u8>::empty());
        assert(last + Seq::<u8>::empty() =~= last);
        assert(Seq::<u8>::empty() + last =~= last);
    } else {
        assert(all.skip(1) =~= entries.skip(1).push(entry));
        assert(all[0] == entries[0]);
        lemma_entries_bytes_push(entries.skip(1), entry);
        lemma_concat_assoc(entry_bytes(entries[0]), entries_bytes(entries.skip(1)), last);
    }
}

/// Stored entries that fit the format are read back exactly as written.
pub proof fn lemma_parse_entries_bytes(entries: Seq<(Seq<u8>, Seq<u8>)>)
    requires
        storable(entries),
    ensures
        parse_entries(entries_bytes(entries)) == Ok::<_, FormatError>(entries),
    decreases entries.len(),
{
    if entries.len() == 0 {
        assert(entries =~= Seq::empty());
    } else {
        let first = entries[0];
        let rest = entries.skip(1);
        assert(storable(rest)) by {
            assert forall|i: int| 0 <= i < rest.len() implies (#[trigger] rest[i]).0.len()
                <= u32::MAX && rest[i].1.len() <= u32::MAX by {
                assert(rest[i] == entries[i + 1]);
            }
        }
        lemma_parse_entries_bytes(rest);
        let tail = entries_bytes(rest);
        lemma_parse_entry_bytes(first, tail);
        lemma_skip_concat(entry_bytes(first), tail);
        assert(seq![first] + rest =~= entries);
    }
}

/// Where the stored entries can all be read, the scan finds what the lookup
/// finds in them.
pub proof fn lemma_scan_is_lookup(data: Seq<u8>, key: Seq<u8>)
    requires
        parse_entries(data) is Ok,
    ensures
        scan_entries(data, key) == Ok::<_, FormatError>(lookup(parse_entries(data)->Ok_0, key)),
    decreases data.len(),
{
    if data.len() > 0 {
        let (entry, used) = parse_entry(data)->0;
        let rest = data.skip(used);
        let entries = parse_entries(data)->Ok_0;
        let tail = parse_entries(rest)->Ok_0;
        assert(entries == seq![entry] + tail);
        assert(entries[0] == entry);
        if entry.0 != key {
            lemma_scan_is_lookup(rest, key);
            assert(entries.skip(1) =~= tail);
        }
    }
}

/// A table file that holds entries which fit the format, with a Bloom
/// filter field that fits it too, is read back as exactly those entries,
/// and its filter accepts every key among them.
pub proof fn lemma_table_round_trip(entries: Seq<(Seq<u8>, Seq<u8>)>)
    requires
        storable(entries),
        table_filter_bytes(entries).len() <= u32::MAX,
    ensures
        parse_table(table_bytes(entries)) == Ok::<_, FormatError>(entries),
        forall|key: Seq<u8>|
            scan_table(table_bytes(entries), key) == Ok::<_, FormatError>(lookup(entries, key)),
{
    let filter = table_filter_bytes(entries);
    lemma_parse_field_bytes(filter, entries_bytes(entries));
    lemma_skip_concat(field_bytes(filter), entries_bytes(entries));
    lemma_parse_entries_bytes(entries);
    assert forall|key: Seq<u8>|
        scan_table(table_bytes(entries), key) == Ok::<_, FormatError>(lookup(entries, key)) by {
        lemma_scan_is_lookup(entries_bytes(entries), key);
    }
}

/// The filter into which keys were inserted has the number of bits that it
/// started with.
pub proof fn lemma_keys_filter_len(entries: Seq<(Seq<u8>, Seq<u8>)>, size: nat, count: nat)
    ensures
        keys_filter(entries, size, count).len() == size,
    decreases entries.len(),
{
    if entries.len() > 0 {
        lemma_keys_filter_len(entries.drop_last(), size, count);
    }
}

/// The filter at the head of a table file is the filter that the table was
/// written with, where its bit count fits 32 bits: a handle that is opened
/// on the file admits every key among the entries.
pub proof fn lemma_table_filter_round_trip(entries: Seq<(Seq<u8>, Seq<u8>)>)
    requires
        filter_bit_count(entries.len()) <= u32::MAX,
    ensures
        table_filter_bytes(entries).len() <= u32::MAX,
        parse_table_filter(table_bytes(entries)) == Some(
            (
                keys_filter(entries, filter_bit_count(entries.len()), BLOOM_HASH_FUNCTIONS as nat),
                BLOOM_HASH_FUNCTIONS as nat,
            ),
        ),
{
    let size = filter_bit_count(entries.len());
    let count = BLOOM_HASH_FUNCTIONS as nat;
    let bits = keys_filter(entries, size, count);
    lemma_keys_filter_len(entries, size, count);
    lemma_filter_round_trip(bits, count);
    let payload = table_filter_bytes(entries);
    assert(payload.len() == 8 + (bits.len() + 7) / 8);
    lemma_parse_field_bytes(payload, entries_bytes(entries));
}

/// The filter into which the keys of `entries` were inserted accepts each
/// of those keys.
pub proof fn lemma_keys_filter_accepts(
    entries: Seq<(Seq<u8>, Seq<u8>)>,
    size: nat,
    count: nat,
    i: int,
)
    requires
        0 <= i < entries.len(),
    ensures
        accepts(keys_filter(entries, size, count), count, entries[i].0),
    decreases entries.len(),
{
    let before = keys_filter(entries.drop_last(), size, count);
    lemma_insert_accepts(before, count, entries.last().0, entries[i].0);
    if i < entries.len() - 1 {
        assert(entries.drop_last()[i] == entries[i]);
        lemma_keys_filter_accepts(entries.drop_last(), size, count, i);
    }
}

/// A handle on one table file: its path, its size in bytes and, where one
/// could be read or was written, the Bloom filter over its keys.
pub struct SSTable {
    path: Vec<u8>,
    size: usize,
    bloom_filter: Option<BloomFilter>,
}

impl SSTable {
    /// The path of the table file.
    pub closed spec fn path(&self) -> Seq<u8> {
        self.path@
    }

    /// The size of the table file that the handle has cached.
    pub closed spec fn cached_size(&self) -> nat {
        self.size as nat
    }

    /// The Bloom filter of the handle, if it has one: the bit array and the
    /// number of hash functions.
    pub closed spec fn filter(&self) -> Option<(Seq<bool>, nat)> {
        match self.bloom_filter {
            Some(f) => Some((f.bits(), f.hash_count())),
            None => None,
        }
    }

    /// The handle is well formed: its Bloom filter is, if it has one.
    pub closed spec fn wf(&self) -> bool {
        self.bloom_filter matches Some(f) ==> f.wf()
    }

    /// Whether the table may hold `key`: whether its Bloom filter accepts
    /// the key, and `true` if it has no filter.
    pub open spec fn may_contain(&self, key: Seq<u8>) -> bool {
        match self.filter() {
            Some((bits, count)) => accepts(bits, count, key),
            None => true,
        }
    }

    /// A handle on the table file at `path`, of which `contents` are the
    /// bytes, or `None` where there is no such file. A file that exists
    /// gives the handle its size and, if its head can be read as one, its
    /// Bloom filter.
    pub fn new(path: Vec<u8>, contents: Option<&[u8]>) -> (table: Self)
        ensures
            table.wf(),
            table.path() == path@,
            match contents {
                Some(data) => table.cached_size() == data@.len() && table.filter()
                    == parse_table_filter(data@),
                None => table.cached_size() == 0 && table.filter() is None,
            },
    {
        match contents {
            None => SSTable { path, size: 0, bloom_filter: None },
            Some(data) => {
                let bloom_filter = Self::read_bloom_filter(data);
                SSTable { path, size: data.len(), bloom_filter }
            },
        }
    }

    /// The Bloom filter at the head of a table file, if there is one that
    /// can be read.
    fn read_bloom_filter(data: &[u8]) -> (filter: Option<BloomFilter>)
        ensures
            match filter {
                Some(f) => f.wf() && parse_table_filter(data@) == Some((f.bits(), f.hash_count())),
                None => parse_table_filter(data@) is None,
            },
    {
        assert(data@.skip(0) =~= data@);
        match read_field(data, 0) {
            None => None,
            Some((start, end)) => {
                let payload = slice_subrange(data, start, end);
                match BloomFilter::from_bytes(payload) {
                    Ok(f) => Some(f),
                    Err(_) => None,
                }
            },
        }
    }

    /// The number of bits of the Bloom filter of a table with `count`
    /// entries.
    fn filter_size(count: usize) -> (bits: usize)
        ensures
            bits == filter_bit_count(count as nat),
    {
        let expected: u128 = if count > EXPECTED_ENTRIES_PER_SSTABLE {
            count as u128
        } else {
            EXPECTED_ENTRIES_PER_SSTABLE as u128
        };
        let bits: u128 = (expected * 9585058377367439073u128 + 999999999999999999u128)
            / 1000000000000000000u128;
        if bits > usize::MAX as u128 {
            usize::MAX
        } else {
            bits as usize
        }
    }

    /// Builds the table file for `data` and returns its bytes: a fresh
    /// Bloom filter with every key inserted, then the entries in the order
    /// given. The handle takes on the size of the file and the filter.
    pub fn write(&mut self, data: &[(Key, Value)]) -> (image: Vec<u8>)
        ensures
            final(self).wf(),
            final(self).path() == old(self).path(),
            image@ == table_bytes(data.deep_view()),
            final(self).cached_size() == image@.len(),
            final(self).filter() == Some(
                (
                    keys_filter(
                        data.deep_view(),
                        filter_bit_count(data@.len()),
                        BLOOM_HASH_FUNCTIONS as nat,
                    ),
                    BLOOM_HASH_FUNCTIONS as nat,
                ),
            ),
            forall|i: int|
                0 <= i < data@.len() ==> final(self).may_contain(
                    (#[trigger] data.deep_view()[i]).0,
                ),
    {
        let ghost entries = data.deep_view();
        let ghost size = filter_bit_count(data@.len());
        let ghost count = BLOOM_HASH_FUNCTIONS as nat;
        let mut bloom = BloomFilter::with_size(Self::filter_size(data.len()), BLOOM_HASH_FUNCTIONS);
        let mut i: usize = 0;
        assert(entries.subrange(0, 0) =~= Seq::empty());
        while i < data.len()
            invariant
                i <= data@.len(),
                entries == data.deep_view(),
                bloom.wf(),
                bloom.hash_count() == count,
                bloom.bits() == keys_filter(entries.subrange(0, i as int), size, count),
            decreases data@.len() - i,
        {
            let entry: &(Key, Value) = &data[i];
            bloom.insert(entry.0.as_slice());
            proof {
                let next = entries.subrange(0, i + 1);
                assert(next.drop_last() =~= entries.subrange(0, i as int));
                assert(next.last().0 == entry.0@);
            }
            i += 1;
        }
        assert(entries.subrange(0, i as int) =~= entries);
        let filter = bloom.to_bytes();
        let mut image: Vec<u8> = Vec::new();
        put_field(&mut image, filter.as_slice());
        let ghost head = image@;
        assert(head =~= field_bytes(table_filter_bytes(entries)));
        let mut j: usize = 0;
        assert(head + entries_bytes(entries.subrange(0, 0)) =~= head);
        while j < data.len()
            invariant
                j <= data@.len(),
                entries == data.deep_view(),
                image@ == head + entries_bytes(entries.subrange(0, j as int)),
            decreases data@.len() - j,
        {
            let entry: &(Key, Value) = &data[j];
            put_field(&mut image, entry.0.as_slice());
            put_field(&mut image, entry.1.as_slice());
            proof {
                let done = entries.subrange(0, j as int);
                assert(entries.subrange(0, j + 1) =~= done.push(entries[j as int]));
                lemma_entries_bytes_push(done, entries[j as int]);
                assert(entries[j as int] == (entry.0@, entry.1@));
                assert(image@ =~= head + (entries_bytes(done) + entry_bytes(entries[j as int])));
            }
            j += 1;
        }
        assert(entries.subrange(0, j as int) =~= entries);
        self.size = image.len();
        self.bloom_filter = Some(bloom);
        proof {
            assert forall|i: int| 0 <= i < data@.len() implies self.may_contain(
                (#[trigger] data.deep_view()[i]).0,
            ) by {
                lemma_keys_filter_accepts(entries, size, count, i);
            }
        }
        image
    }

    /// Decodes the entries of the table file `contents`, in file order.
    pub fn read(&self, contents: &[u8]) -> (entries: Result<Vec<(Key, Value)>, FormatError>)
        ensures
            match entries {
                Ok(list) => parse_table(contents@) == Ok::<_, FormatError>(list.deep_view()),
                Err(e) => parse_table(contents@) == Err::<Seq<(Seq<u8>, Seq<u8>)>, _>(e),
            },
    {
        read_table(contents)
    }

    /// Whether the table may hold `key`: what its Bloom filter says, and
    /// `true` if it has none.
    pub fn might_contain_key(&self, key: &[u8]) -> (possible: bool)
        requires
            self.wf(),
        ensures
            possible == self.may_contain(key@),
    {
        match &self.bloom_filter {
            Some(filter) => filter.might_contain(key),
            None => true,
        }
    }

    /// Looks `key` up in the table, of which `contents` are the file's
    /// bytes. Where the Bloom filter rules the key out, the file is not
    /// looked at; otherwise it is scanned for the first entry with the key.
    pub fn get(&self, key: &[u8], contents: &[u8]) -> (found: Result<Option<Value>, FormatError>)
        requires
            self.wf(),
        ensures
            match found {
                Ok(value) => if self.may_contain(key@) {
                    scan_table(contents@, key@) == Ok::<_, FormatError>(value.deep_view())
                } else {
                    value is None
                },
                Err(e) => self.may_contain(key@) && scan_table(contents@, key@) == Err::<
                    Option<Seq<u8>>,
                    _,
                >(e),
            },
    {
        if !self.might_contain_key(key) {
            return Ok(None);
        }
        find_in_table(contents, key)
    }

    /// The size of the table file in bytes, as the handle has cached it.
    pub fn size(&self) -> (bytes: usize)
        ensures
            bytes == self.cached_size(),
    {
        self.size
    }

    /// The path of the table file.
    pub fn get_path(&self) -> (path: &Vec<u8>)
        ensures
            path@ == self.path(),
    {
        &self.path
    }
}

/// Reads the entry that starts at `pos`: where its key and its value start
/// and end.
pub fn read_entry(data: &[u8], pos: usize) -> (spans: Option<((usize, usize), (usize, usize))>)
    requires
        pos <= data@.len(),
    ensures
        match spans {
            Some((key, value)) => pos < key.0 <= key.1 < value.0 <= value.1 <= data@.len()
                && parse_entry(data@.skip(pos as int)) == Some(
                (
                    (
                        data@.subrange(key.0 as int, key.1 as int),
                        data@.subrange(value.0 as int, value.1 as int),
                    ),
                    value.1 - pos,
                ),
            ),
            None => parse_entry(data@.skip(pos as int)) is None,
        },
{
    let key = match read_field(data, pos) {
        Some(span) => span,
        None => {
            return None;
        },
    };
    assert(data@.skip(pos as int).skip(key.1 - pos) =~= data@.skip(key.1 as int));
    let value = match read_field(data, key.1) {
        Some(span) => span,
        None => {
            return None;
        },
    };
    Some((key, value))
}

/// A copy of the entry whose key and value lie at the given positions.
fn copy_entry(data: &[u8], key: (usize, usize), value: (usize, usize)) -> (entry: (Key, Value))
    requires
        key.0 <= key.1 <= data@.len(),
        value.0 <= value.1 <= data@.len(),
    ensures
        entry.deep_view() == (
            data@.subrange(key.0 as int, key.1 as int),
            data@.subrange(value.0 as int, value.1 as int),
        ),
{
    let k = copy_range(data, key.0, key.1);
    let v = copy_range(data, value.0, value.1);
    assert(k.deep_view() =~= k@ && v.deep_view() =~= v@);
    (k, v)
}

/// Decodes the entries of a table file.
pub fn read_table(contents: &[u8]) -> (entries: Result<Vec<(Key, Value)>, FormatError>)
    ensures
        match entries {
            Ok(list) => parse_table(contents@) == Ok::<_, FormatError>(list.deep_view()),
            Err(e) => parse_table(contents@) == Err::<Seq<(Seq<u8>, Seq<u8>)>, _>(e),
        },
{
    assert(contents@.skip(0) =~= contents@);
    let start = match read_field(contents, 0) {
        Some((_, end)) => end,
        None => {
            return Err(FormatError::Table);
        },
    };
    let mut list: Vec<(Key, Value)> = Vec::new();
    let mut pos: usize = start;
    proof {
        assert(list.deep_view() =~= Seq::empty());
        if parse_entries(contents@.skip(start as int)) is Ok {
            let rest = parse_entries(contents@.skip(start as int))->Ok_0;
            assert(Seq::<(Seq<u8>, Seq<u8>)>::empty() + rest =~= rest);
        }
    }
    while pos < contents.len()
        invariant
            start <= pos <= contents@.len(),
            parse_table(contents@) == parse_entries(contents@.skip(start as int)),
            parse_entries(contents@.skip(start as int)) == read_from(
                list.deep_view(),
                contents@.skip(pos as int),
            ),
        decreases contents@.len() - pos,
    {
        let ghost rest = contents@.skip(pos as int);
        let ghost done = list.deep_view();
        let (key_span, value_span) = match read_entry(contents, pos) {
            Some(spans) => spans,
            None => {
                return Err(FormatError::Table);
            },
        };
        let entry = copy_entry(contents, key_span, value_span);
        let ghost item = entry.deep_view();
        let next = value_span.1;
        assert(rest.skip(next - pos) =~= contents@.skip(next as int));
        list.push(entry);
        proof {
            assert(list.deep_view() =~= done.push(item));
            match parse_entries(contents@.skip(next as int)) {
                Ok(more) => {
                    assert(done + (seq![item] + more) =~= done.push(item) + more);
                },
                Err(_) => {},
            }
        }
        pos = next;
    }
    proof {
        assert(contents@.skip(pos as int).len() == 0);
        assert(list.deep_view() + Seq::empty() =~= list.deep_view());
    }
    Ok(list)
}

/// What is still to come of a read that has decoded `done` and has `rest`
/// left to decode.
pub open spec fn read_from(done: Seq<(Seq<u8>, Seq<u8>)>, rest: Seq<u8>) -> Result<
    Seq<(Seq<u8>, Seq<u8>)>,
    FormatError,
> {
    match parse_entries(rest) {
        Ok(more) => Ok(done + more),
        Err(e) => Err(e),
    }
}

/// Scans a table file for `key`.
pub fn find_in_table(contents: &[u8], key: &[u8]) -> (found: Result<Option<Value>, FormatError>)
    ensures
        match found {
            Ok(value) => scan_table(contents@, key@) == Ok::<_, FormatError>(value.deep_view()),
            Err(e) => scan_table(contents@, key@) == Err::<Option<Seq<u8>>, _>(e),
        },
{
    assert(contents@.skip(0) =~= contents@);
    let start = match read_field(contents, 0) {
        Some((_, end)) => end,
        None => {
            return Err(FormatError::Table);
        },
    };
    let mut pos: usize = start;
    while pos < contents.len()
        invariant
            start <= pos <= contents@.len(),
            scan_table(contents@, key@) == scan_entries(contents@.skip(start as int), key@),
            scan_entries(contents@.skip(start as int), key@) == scan_entries(
                contents@.skip(pos as int),
                key@,
            ),
        decreases contents@.len() - pos,
    {
        let ghost rest = contents@.skip(pos as int);
        let (key_span, value_span) = match read_entry(contents, pos) {
            Some(spans) => spans,
            None => {
                return Err(FormatError::Table);
            },
        };
        let next = value_span.1;
        assert(rest.skip(next - pos) =~= contents@.skip(next as int));
        if bytes_eq(slice_subrange(contents, key_span.0, key_span.1), key) {
            let value = copy_range(contents, value_span.0, value_span.1);
            assert(value.deep_view() =~= value@);
            return Ok(Some(value));
        }
        pos = next;
    }
    Ok(None)
}

} // verus!
