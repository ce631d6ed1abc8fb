//! The storage engine: the in-memory table in front of leveled tables on
//! disk.
//!
//! The engine decides; its caller moves the bytes. A write first goes to
//! the write-ahead log, then into the in-memory table; a table that has
//! grown past its threshold is flushed to a new file at level 0, and a
//! level that is due is merged into the next one. A read asks the
//! in-memory table first, then the tables level by level, the newest first
//! within a level, and only those whose Bloom filter admits the key.
use vstd::prelude::*;
use crate::{Key, Value};
use crate::bytes::copy_range;
use crate::entries::{as_map, entries_of, lookup, sorted, total_bytes, lemma_entries_of};
use crate::error::FormatError;
use crate::memtable::MemTable;
use crate::naming::{format_table_name, read_table_name, table_name};
use crate::sstable::{BLOOM_HASH_FUNCTIONS, SSTable, filter_bit_count, find_in_table, keys_filter,
    parse_table, read_table, scan_table, table_bytes};
use crate::sstable::compaction::{CompactionManager, merge_of, newest_value};
use crate::storage::levels::{append_table, clear_level, copy_paths, handles_wf, highest_level,
    insert_table, paths_of, sequence_after, tables_in, tables_named};
use crate::storage::replay::{apply_log, replay_log};
use crate::wal::{Operation, parse_log};
use std::collections::HashMap;

pub mod levels;
pub mod read;
pub mod replay;
pub mod rest;

verus! {

/// The byte count from which the in-memory table is flushed: 512 KiB.
pub const MEMTABLE_SIZE_THRESHOLD: usize = 524288;

/// The size from which level 1 is due for compaction: 1 MiB.
pub const COMPACTION_SIZE_THRESHOLD: usize = 1048576;

/// The factor by which the threshold grows from one level to the next.
pub const LEVEL_MULTIPLIER: u32 = 4;

/// A table file to be written: its path and its bytes.
#[derive(Debug)]
pub struct TableFile {
    pub path: Vec<u8>,
    pub data: Vec<u8>,
}

/// The outcome of a compaction: the table file to be written, and the
/// paths of the files that it replaces.
#[derive(Debug)]
pub struct Compaction {
    pub output: TableFile,
    pub obsolete: Vec<Vec<u8>>,
}

/// The place of a table in the level map: its level and its position in
/// the list of that level.
#[derive(Debug)]
pub struct Probe {
    pub level: usize,
    pub index: usize,
}

/// How far a lookup has come.
#[derive(Debug)]
pub enum Lookup {
    /// The key has this value.
    Found(Value),
    /// The key has no value.
    Absent,
    /// The table at this place has to be read next.
    Read(Probe),
}

/// How far a lookup has come, as a plain value.
pub enum Step {
    /// The key has this value.
    Found(Seq<u8>),
    /// The key has no value.
    Absent,
    /// The table at this level and position has to be read next.
    Read(nat, nat),
}

impl View for Lookup {
    type V = Step;

    open spec fn view(&self) -> Step {
        match *self {
            Lookup::Found(value) => Step::Found(value@),
            Lookup::Absent => Step::Absent,
            Lookup::Read(probe) => Step::Read(probe.level as nat, probe.index as nat),
        }
    }
}

/// The step that goes on at `place`, and the end of the lookup where there
/// is no place left.
pub open spec fn step_at(place: Option<(nat, nat)>) -> Step {
    match place {
        Some((level, index)) => Step::Read(level, index),
        None => Step::Absent,
    }
}

/// The newest of the first `below` tables whose Bloom filter admits `key`.
pub open spec fn newest_candidate(tables: Seq<SSTable>, key: Seq<u8>, below: int) -> Option<int>
    decreases below,
{
    if below <= 0 || below > tables.len() {
        None
    } else if tables[below - 1].may_contain(key) {
        Some(below - 1)
    } else {
        newest_candidate(tables, key, below - 1)
    }
}

/// Whether `table` is the handle of the table file at `path` that holds
/// `entries`: it has the size of that file and the Bloom filter over the
/// keys of the entries.
pub open spec fn is_table_for(
    table: SSTable,
    path: Seq<u8>,
    entries: Seq<(Seq<u8>, Seq<u8>)>,
) -> bool {
    &&& table.wf()
    &&& table.path() == path
    &&& table.cached_size() == table_bytes(entries).len()
    &&& table.filter() == Some(
        (
            keys_filter(entries, filter_bit_count(entries.len()), BLOOM_HASH_FUNCTIONS as nat),
            BLOOM_HASH_FUNCTIONS as nat,
        ),
    )
}

/// Decodes the table files `contents`, in order: the entries of each, or
/// the error of the first that cannot be read.
pub open spec fn parse_tables(contents: Seq<Seq<u8>>) -> Result<
    Seq<Seq<(Seq<u8>, Seq<u8>)>>,
    FormatError,
>
    decreases contents.len(),
{
    if contents.len() == 0 {
        Ok(Seq::empty())
    } else {
        match parse_tables(contents.drop_last()) {
            Err(e) => Err(e),
            Ok(done) => match parse_table(contents.last()) {
                Err(e) => Err(e),
                Ok(entries) => Ok(done.push(entries)),
            },
        }
    }
}

/// The storage engine.
pub struct Storage {
    memtable: MemTable,
    sstables: HashMap<usize, Vec<SSTable>>,
    top_level: usize,
    sstable_counter: u64,
    compaction_manager: CompactionManager,
}

impl Storage {
    /// The in-memory table.
    pub closed spec fn memtable(&self) -> MemTable {
        self.memtable
    }

    /// The tables at `level`, oldest first.
    pub closed spec fn tables(&self, level: nat) -> Seq<SSTable> {
        tables_in(self.sstables@, level)
    }

    /// The highest level that has held a table: no table lies above it.
    pub closed spec fn top(&self) -> nat {
        self.top_level as nat
    }

    /// The sequence number that the next table file gets.
    pub closed spec fn next_sequence(&self) -> nat {
        self.sstable_counter as nat
    }

    /// The compaction manager.
    pub closed spec fn manager(&self) -> CompactionManager {
        self.compaction_manager
    }

    /// The engine is well formed: its in-memory table and its table handles
    /// are, no table lies above its top level, and its compaction manager
    /// has the engine's multiplier and size threshold.
    pub closed spec fn wf(&self) -> bool {
        &&& self.memtable.wf()
        &&& forall|level: usize, i: int|
            self.sstables@.contains_key(level) && 0 <= i < self.sstables@[level]@.len()
                ==> (#[trigger] self.sstables@[level]@[i]).wf()
        &&& forall|level: usize| #[trigger]
            self.sstables@.contains_key(level) ==> level <= self.top_level
        &&& self.compaction_manager.multiplier() == LEVEL_MULTIPLIER
        &&& self.compaction_manager.threshold() == COMPACTION_SIZE_THRESHOLD
    }

    /// What a well-formed engine is known to hold: a well-formed in-memory
    /// table, well-formed table handles and no table above its top level.
    pub proof fn lemma_wf(&self)
        requires
            self.wf(),
        ensures
            self.memtable().wf(),
            self.manager().multiplier() == LEVEL_MULTIPLIER,
            self.manager().threshold() == COMPACTION_SIZE_THRESHOLD,
            forall|level: nat, i: int|
                0 <= i < self.tables(level).len() ==> (#[trigger] self.tables(level)[i]).wf(),
            forall|level: nat| level > self.top() ==> self.tables(level).len() == 0,
    {
        assert forall|level: nat, i: int| 0 <= i < self.tables(level).len() implies (
        #[trigger] self.tables(level)[i]).wf() by {
            assert(self.sstables@[level as usize]@[i].wf());
        }
        assert forall|level: nat| level > self.top() implies self.tables(level).len() == 0 by {
            if level <= usize::MAX {
                assert(self.sstables@.contains_key(level as usize) ==> level as usize
                    <= self.top_level);
            }
        }
    }

    /// The first place at or above `level` at which a table may hold `key`:
    /// levels ascending and, within a level, the newest table first.
    pub open spec fn candidate_from(&self, key: Seq<u8>, level: nat) -> Option<(nat, nat)>
        decreases self.top() + 1 - level,
    {
        if level > self.top() {
            None
        } else {
            match newest_candidate(self.tables(level), key, self.tables(level).len() as int) {
                Some(i) => Some((level, i as nat)),
                None => self.candidate_from(key, level + 1),
            }
        }
    }

    /// The place that comes after `(level, index)` in the search for `key`:
    /// the newest older table of the level that may hold the key, or the
    /// first such place at a higher level.
    pub open spec fn candidate_after(&self, key: Seq<u8>, level: nat, index: nat) -> Option<
        (nat, nat),
    > {
        let tables = self.tables(level);
        let below = if index > tables.len() {
            tables.len() as int
        } else {
            index as int
        };
        match newest_candidate(tables, key, below) {
            Some(i) => Some((level, i as nat)),
            None => self.candidate_from(key, level + 1),
        }
    }

    /// The first step of the lookup of `key`: the value that the in-memory
    /// table has for it or, where it has none, the first table that may
    /// hold the key.
    pub open spec fn first_step(&self, key: Seq<u8>) -> Step {
        if self.memtable()@.contains_key(key) {
            Step::Found(self.memtable()@[key])
        } else {
            step_at(self.candidate_from(key, 0))
        }
    }

    /// The step after the table at `(level, index)` has been read, whose
    /// file holds `contents`: the value of the first entry with the key or,
    /// where the table has none, the next table that may hold the key.
    pub open spec fn next_step(&self, key: Seq<u8>, level: nat, index: nat, contents: Seq<u8>)
        -> Result<Step, FormatError> {
        match scan_table(contents, key) {
            Err(e) => Err(e),
            Ok(Some(value)) => Ok(Step::Found(value)),
            Ok(None) => Ok(step_at(self.candidate_after(key, level, index))),
        }
    }

    /// Whether `level` is due for compaction. The last level that `usize`
    /// can number has no next level and is never due.
    pub open spec fn compaction_due(&self, level: nat) -> bool {
        level < usize::MAX && self.manager().due(level, self.tables(level))
    }

    /// Whether the engine holds the same tables and the same sequence
    /// number as `other`.
    pub open spec fn same_tables(&self, other: &Self) -> bool {
        &&& forall|level: nat| self.tables(level) == other.tables(level)
        &&& self.top() == other.top()
        &&& self.next_sequence() == other.next_sequence()
    }

    /// Whether the engine is what `before` is after a flush of `entries`
    /// into `file`: the file holds the entries under the next table name of
    /// level 0, its handle is the newest table of level 0, the in-memory
    /// table is empty, and the next sequence number is one more.
    pub open spec fn flushed_from(
        &self,
        before: &Self,
        entries: Seq<(Seq<u8>, Seq<u8>)>,
        file: TableFile,
    ) -> bool {
        &&& file.path@ == table_name(0, before.next_sequence())
        &&& file.data@ == table_bytes(entries)
        &&& sorted(entries)
        &&& self.memtable()@ == Map::<Seq<u8>, Seq<u8>>::empty()
        &&& self.memtable().byte_count() == 0
        &&& self.tables(0).len() == before.tables(0).len() + 1
        &&& self.tables(0).drop_last() == before.tables(0)
        &&& is_table_for(self.tables(0).last(), file.path@, entries)
        &&& forall|level: nat| level != 0 ==> self.tables(level) == before.tables(level)
        &&& self.top() == before.top()
        &&& self.next_sequence() == before.next_sequence() + 1
    }

    /// Whether the engine is what `before` is after the tables of `level`
    /// were merged into `file`: the file holds the merge of `inputs` under
    /// the next table name of the next level, its handle is the newest
    /// table there, `level` is empty, and the next sequence number is one
    /// more.
    pub open spec fn compacted_from(
        &self,
        before: &Self,
        level: nat,
        inputs: Seq<Seq<(Seq<u8>, Seq<u8>)>>,
        outcome: Compaction,
    ) -> bool {
        let merged = merge_of(inputs);
        &&& sorted(merged)
        &&& forall|key: Seq<u8>| lookup(merged, key) == newest_value(inputs, key)
        &&& outcome.output.path@ == table_name(level + 1, before.next_sequence())
        &&& outcome.output.data@ == table_bytes(merged)
        &&& outcome.obsolete.deep_view() == paths_of(before.tables(level))
        &&& self.memtable() == before.memtable()
        &&& self.tables(level) == Seq::<SSTable>::empty()
        &&& self.tables(level + 1).len() == before.tables(level + 1).len() + 1
        &&& self.tables(level + 1).drop_last() == before.tables(level + 1)
        &&& is_table_for(self.tables(level + 1).last(), outcome.output.path@, merged)
        &&& forall|other: nat|
            other != level && other != level + 1 ==> self.tables(other) == before.tables(other)
        &&& self.top() == if level + 1 > before.top() {
            level + 1
        } else {
            before.top()
        }
        &&& self.next_sequence() == before.next_sequence() + 1
    }

    /// The engine after a restart: `log` are the bytes of the write-ahead
    /// log, `tables` the handles of the files found in the data directory.
    /// The in-memory table is rebuilt from the log; the handles whose
    /// paths are table names are grouped by level, in the order of their
    /// sequence numbers; the next sequence number comes after the greatest
    /// one found.
    pub fn new(log: &[u8], tables: Vec<SSTable>) -> (opened: Result<Self, FormatError>)
        requires
            forall|i: int| 0 <= i < tables.len() ==> (#[trigger] tables@[i]).wf(),
        ensures
            match opened {
                Ok(engine) => {
                    &&& engine.wf()
                    &&& parse_log(log@) is Ok
                    &&& engine.memtable()@ == apply_log(Map::empty(), parse_log(log@)->Ok_0)
                    &&& forall|level: nat| engine.tables(level) == tables_named(tables@, level)
                    &&& engine.top() == highest_level(tables@)
                    &&& engine.next_sequence() == sequence_after(tables@)
                },
                Err(e) => parse_log(log@) == Err::<Seq<(Operation, Seq<u8>, Option<Seq<u8>>)>, _>(
                    e,
                ),
            },
    {
        let memtable = match replay_log(log) {
            Ok(table) => table,
            Err(e) => {
                return Err(e);
            },
        };
        let mut sstables: HashMap<usize, Vec<SSTable>> = HashMap::new();
        let mut top_level: usize = 0;
        let mut counter: u64 = 0;
        let mut rest = tables;
        let ghost mut done: Seq<SSTable> = Seq::empty();
        assert(rest@.len() == 0 ==> done =~= tables@);
        while rest.len() > 0
            invariant
                handles_wf(sstables@),
                forall|i: int| 0 <= i < rest.len() ==> (#[trigger] rest@[i]).wf(),
                done + rest@ == tables@,
                forall|level: nat| tables_in(sstables@, level) == tables_named(done, level),
                forall|level: usize| #[trigger] sstables@.contains_key(level) ==> level <= top_level,
                top_level == highest_level(done),
                counter == sequence_after(done),
            decreases rest.len(),
        {
            let ghost before = done;
            let ghost old_rest = rest@;
            let table = rest.remove(0);
            let ghost handle = table;
            let ghost levels_before = sstables@;
            proof {
                done = done.push(table);
                assert(done.drop_last() =~= before);
                assert(done + rest@ =~= before + old_rest);
                assert forall|i: int| 0 <= i < rest.len() implies (#[trigger] rest@[i]).wf() by {
                    assert(rest@[i] == old_rest[i + 1]);
                }
                assert(table == old_rest[0]);
            }
            match read_table_name(table.get_path().as_slice()) {
                Some((level, seq)) => {
                    counter = if seq == u64::MAX {
                        u64::MAX
                    } else if seq + 1 > counter {
                        seq + 1
                    } else {
                        counter
                    };
                    insert_table(&mut sstables, level, table, seq);
                    if level > top_level {
                        top_level = level;
                    }
                },
                None => {},
            }
            proof {
                assert(done.last() == handle);
                assert forall|l: nat| tables_in(sstables@, l) == tables_named(done, l) by {
                    assert(tables_in(levels_before, l) == tables_named(before, l));
                    assert(tables_named(done.drop_last(), l) == tables_named(before, l));
                }
            }
        }
        assert(done =~= tables@);
        let compaction_manager = CompactionManager::new(LEVEL_MULTIPLIER, COMPACTION_SIZE_THRESHOLD);
        Ok(Storage { memtable, sstables, top_level, sstable_counter: counter, compaction_manager })
    }

    /// Starts the lookup of `key`: the value that the in-memory table has
    /// for it or, where it has none, the first table that has to be read.
    pub fn get(&self, key: &Key) -> (found: Lookup)
        requires
            self.wf(),
        ensures
            found@ == self.first_step(key@),
    {
        match self.memtable.get(key.as_slice()) {
            Some(value) => {
                let copy = copy_range(value.as_slice(), 0, value.len());
                assert(copy@ =~= value@);
                assert(value.deep_view() =~= value@);
                Lookup::Found(copy)
            },
            None => self.first_candidate(key.as_slice(), 0),
        }
    }

    /// The first place at or above `level` at which a table may hold `key`.
    fn first_candidate(&self, key: &[u8], level: usize) -> (found: Lookup)
        requires
            self.wf(),
        ensures
            found@ == step_at(self.candidate_from(key@, level as nat)),
    {
        let mut at: usize = level;
        while at <= self.top_level
            invariant
                self.wf(),
                level <= at,
                self.candidate_from(key@, level as nat) == self.candidate_from(key@, at as nat),
            decreases self.top_level + 1 - at,
        {
            match self.sstables.get(&at) {
                Some(tables) => {
                    assert(self.sstables@.contains_key(at) && self.sstables@[at] == *tables);
                    assert forall|i: int| 0 <= i < tables.len() implies (#[trigger] tables@[i]).wf() by {
                        assert(self.sstables@[at]@[i].wf());
                    }
                    match find_candidate(tables, key, tables.len()) {
                        Some(i) => {
                            return Lookup::Read(Probe { level: at, index: i });
                        },
                        None => {},
                    }
                },
                None => {
                    assert(!self.sstables@.contains_key(at));
                    assert(self.tables(at as nat) =~= Seq::empty());
                },
            }
            if at == self.top_level {
                assert(self.candidate_from(key@, (at + 1) as nat) is None);
                return Lookup::Absent;
            }
            at += 1;
        }
        Lookup::Absent
    }

    /// Goes on with the lookup of `key` after the table at `probe` has been
    /// read: `contents` are the bytes of its file. The value of the first
    /// entry with the key is the result; where the table has none, the
    /// next table that has to be read, or that there is no value.
    pub fn get_next(&self, key: &Key, probe: &Probe, contents: &[u8]) -> (found: Result<
        Lookup,
        FormatError,
    >)
        requires
            self.wf(),
        ensures
            match found {
                Ok(step) => self.next_step(key@, probe.level as nat, probe.index as nat, contents@)
                    == Ok::<_, FormatError>(step@),
                Err(e) => self.next_step(key@, probe.level as nat, probe.index as nat, contents@)
                    == Err::<Step, _>(e),
            },
    {
        match find_in_table(contents, key.as_slice()) {
            Err(e) => Err(e),
            Ok(Some(value)) => {
                assert(value.deep_view() =~= value@);
                Ok(Lookup::Found(value))
            },
            Ok(None) => {
                let older = match self.sstables.get(&probe.level) {
                    Some(tables) => {
                        assert(self.sstables@.contains_key(probe.level) && self.sstables@[probe.level]
                            == *tables);
                        assert forall|i: int| 0 <= i < tables.len() implies (
                        #[trigger] tables@[i]).wf() by {
                            assert(self.sstables@[probe.level]@[i].wf());
                        }
                        let below = if probe.index > tables.len() {
                            tables.len()
                        } else {
                            probe.index
                        };
                        find_candidate(tables, key.as_slice(), below)
                    },
                    None => {
                        assert(!self.sstables@.contains_key(probe.level));
                        assert(self.tables(probe.level as nat) =~= Seq::empty());
                        None
                    },
                };
                match older {
                    Some(i) => Ok(Lookup::Read(Probe { level: probe.level, index: i })),
                    None => {
                        if probe.level >= self.top_level {
                            assert(self.candidate_from(key@, (probe.level + 1) as nat) is None);
                            Ok(Lookup::Absent)
                        } else {
                            Ok(self.first_candidate(key.as_slice(), probe.level + 1))
                        }
                    },
                }
            },
        }
    }

    /// The handle of the table at `probe`, if there is one.
    pub fn table_at(&self, probe: &Probe) -> (table: Option<&SSTable>)
        requires
            self.wf(),
        ensures
            match table {
                Some(t) => probe.index < self.tables(probe.level as nat).len() && *t
                    == self.tables(probe.level as nat)[probe.index as int],
                None => probe.index >= self.tables(probe.level as nat).len(),
            },
    {
        match self.sstables.get(&probe.level) {
            Some(tables) => {
                assert(self.sstables@.contains_key(probe.level) && self.sstables@[probe.level]
                    == *tables);
                if probe.index < tables.len() {
                    Some(&tables[probe.index])
                } else {
                    None
                }
            },
            None => {
                assert(!self.sstables@.contains_key(probe.level));
                None
            },
        }
    }

    /// The byte count of the in-memory table.
    pub fn memtable_size(&self) -> (bytes: usize)
        requires
            self.wf(),
        ensures
            bytes == self.memtable().byte_count(),
    {
        self.memtable.size()
    }

    /// The sequence number that the next table file gets.
    pub fn sequence(&self) -> (next: u64)
        ensures
            next == self.next_sequence(),
    {
        self.sstable_counter
    }

    /// Writes `key` with `value` into the in-memory table. Where the table
    /// has then reached its threshold it is flushed: its entries become a
    /// new table at level 0, whose file is returned, and the table starts
    /// empty again.
    pub fn put(&mut self, key: Key, value: Value) -> (flushed: Option<TableFile>)
        requires
            old(self).wf(),
            old(self).memtable().byte_count() - old(self).memtable().entry_bytes(key@) + key@.len()
                + value@.len() <= usize::MAX,
            old(self).memtable().byte_count() - old(self).memtable().entry_bytes(key@) + key@.len()
                + value@.len() >= MEMTABLE_SIZE_THRESHOLD ==> old(self).next_sequence() < u64::MAX,
        ensures
            final(self).wf(),
            ({
                let after = old(self).memtable()@.insert(key@, value@);
                let bytes = old(self).memtable().byte_count() - old(self).memtable().entry_bytes(
                    key@,
                ) + key@.len() + value@.len();
                if bytes >= MEMTABLE_SIZE_THRESHOLD {
                    &&& flushed matches Some(file)
                    &&& as_map(entries_of(after)) == after
                    &&& final(self).flushed_from(old(self), entries_of(after), file)
                } else {
                    &&& flushed is None
                    &&& final(self).memtable()@ == after
                    &&& final(self).memtable().byte_count() == bytes
                    &&& final(self).same_tables(old(self))
                }
            }),
    {
        self.memtable.insert(key, value);
        if self.memtable.size() >= MEMTABLE_SIZE_THRESHOLD {
            proof {
                lemma_entries_of(self.memtable.entries());
                if self.memtable.entries().len() == 0 {
                    assert(total_bytes(self.memtable.entries()) == 0);
                }
            }
            self.flush_memtable()
        } else {
            None
        }
    }

    /// Takes `key` out of the in-memory table. The tables are not touched:
    /// a value that one of them holds for the key is what a read then
    /// finds.
    pub fn delete(&mut self, key: &Key)
        requires
            old(self).wf(),
        ensures
            final(self).wf(),
            final(self).memtable()@ == old(self).memtable()@.remove(key@),
            final(self).memtable().byte_count() == old(self).memtable().byte_count() - old(
                self,
            ).memtable().entry_bytes(key@),
            final(self).same_tables(old(self)),
    {
        self.memtable.remove(key.as_slice());
    }

    /// Flushes the in-memory table, unless it is empty: its entries become
    /// a new table at level 0, whose file is returned.
    pub fn flush_memtable(&mut self) -> (flushed: Option<TableFile>)
        requires
            old(self).wf(),
            old(self).memtable().entries().len() > 0 ==> old(self).next_sequence() < u64::MAX,
        ensures
            final(self).wf(),
            match flushed {
                Some(file) => old(self).memtable().entries().len() > 0 && final(self).flushed_from(
                    old(self),
                    old(self).memtable().entries(),
                    file,
                ),
                None => old(self).memtable().entries().len() == 0 && *final(self) == *old(self),
            },
    {
        if self.memtable.is_empty() {
            return None;
        }
        let entries = self.memtable.iter();
        let (file, table) = build_table(0, self.sstable_counter, &entries);
        append_table(&mut self.sstables, 0, table);
        self.sstable_counter = self.sstable_counter + 1;
        self.memtable = MemTable::new();
        proof {
            let added = old(self).tables(0).push(table);
            assert(added.drop_last() =~= old(self).tables(0));
        }
        Some(file)
    }

    /// The paths of the table files that a compaction of `level` has to
    /// read, oldest first: those of all tables of the level if the level is
    /// due for compaction, and none if it is not.
    pub fn compaction_inputs(&self, level: usize) -> (paths: Vec<Vec<u8>>)
        requires
            self.wf(),
        ensures
            paths.deep_view() == if self.compaction_due(level as nat) {
                paths_of(self.tables(level as nat))
            } else {
                Seq::<Seq<u8>>::empty()
            },
    {
        if level < usize::MAX {
            match self.sstables.get(&level) {
                Some(tables) => {
                    assert(self.sstables@.contains_key(level) && self.sstables@[level] == *tables);
                    if self.compaction_manager.should_compact(level, tables.as_slice()) {
                        return copy_paths(tables);
                    }
                },
                None => {
                    assert(!self.sstables@.contains_key(level));
                    let none: Vec<SSTable> = Vec::new();
                    let due = self.compaction_manager.should_compact(level, none.as_slice());
                    assert(none@ =~= self.tables(level as nat));
                    if due {
                        return copy_paths(&none);
                    }
                },
            }
        }
        let paths: Vec<Vec<u8>> = Vec::new();
        assert(paths.deep_view() =~= Seq::<Seq<u8>>::empty());
        paths
    }

    /// Merges the tables of `level` into one new table at the next level,
    /// if the level is due for compaction and `contents` holds the bytes
    /// of one file for each of its tables, oldest first. Nothing changes
    /// otherwise, nor where a file cannot be decoded.
    pub fn maybe_compact(&mut self, level: usize, contents: &Vec<Vec<u8>>) -> (done: Result<
        Option<Compaction>,
        FormatError,
    >)
        requires
            old(self).wf(),
            old(self).compaction_due(level as nat) ==> old(self).next_sequence() < u64::MAX,
        ensures
            final(self).wf(),
            if old(self).compaction_due(level as nat) && contents.len() == old(self).tables(
                level as nat,
            ).len() {
                match parse_tables(contents.deep_view()) {
                    Err(e) => done == Err::<Option<Compaction>, _>(e) && *final(self) == *old(self),
                    Ok(inputs) => (done matches Ok(Some(outcome)) && final(self).compacted_from(
                        old(self),
                        level as nat,
                        inputs,
                        outcome,
                    )),
                }
            } else {
                done matches Ok(None) && *final(self) == *old(self)
            },
    {
        if level == usize::MAX {
            return Ok(None);
        }
        let obsolete = match self.sstables.get(&level) {
            Some(tables) => {
                assert(self.sstables@.contains_key(level) && self.sstables@[level] == *tables);
                if !self.compaction_manager.should_compact(level, tables.as_slice()) {
                    return Ok(None);
                }
                if contents.len() != tables.len() {
                    return Ok(None);
                }
                copy_paths(tables)
            },
            None => {
                assert(!self.sstables@.contains_key(level));
                let none: Vec<SSTable> = Vec::new();
                assert(none@ =~= self.tables(level as nat));
                if !self.compaction_manager.should_compact(level, none.as_slice()) {
                    return Ok(None);
                }
                if contents.len() != 0 {
                    return Ok(None);
                }
                copy_paths(&none)
            },
        };
        let inputs = match read_tables(contents) {
            Ok(inputs) => inputs,
            Err(e) => {
                return Err(e);
            },
        };
        let slice = inputs.as_slice();
        assert(slice.deep_view() =~= inputs.deep_view());
        let merged = self.compaction_manager.compact(slice);
        let (output, table) = build_table(level + 1, self.sstable_counter, &merged);
        clear_level(&mut self.sstables, level);
        let ghost cleared = self.sstables@;
        append_table(&mut self.sstables, level + 1, table);
        self.sstable_counter = self.sstable_counter + 1;
        if level + 1 > self.top_level {
            self.top_level = level + 1;
        }
        proof {
            let added = old(self).tables((level + 1) as nat).push(table);
            assert(tables_in(cleared, (level + 1) as nat) == old(self).tables((level + 1) as nat));
            assert(added.drop_last() =~= old(self).tables((level + 1) as nat));
            assert(self.tables(level as nat) == tables_in(cleared, level as nat));
        }
        Ok(Some(Compaction { output, obsolete }))
    }
}

/// The newest of the first `below` tables whose Bloom filter admits `key`.
fn find_candidate(tables: &Vec<SSTable>, key: &[u8], below: usize) -> (found: Option<usize>)
    requires
        below <= tables.len(),
        forall|i: int| 0 <= i < tables.len() ==> (#[trigger] tables@[i]).wf(),
    ensures
        match found {
            Some(i) => newest_candidate(tables@, key@, below as int) == Some(i as int) && i
                < below,
            None => newest_candidate(tables@, key@, below as int) is None,
        },
{
    let mut i: usize = below;
    while i > 0
        invariant
            i <= below <= tables.len(),
            forall|j: int| 0 <= j < tables.len() ==> (#[trigger] tables@[j]).wf(),
            newest_candidate(tables@, key@, below as int) == newest_candidate(
                tables@,
                key@,
                i as int,
            ),
        decreases i,
    {
        if tables[i - 1].might_contain_key(key) {
            return Some(i - 1);
        }
        i -= 1;
    }
    None
}

/// Builds the table file for `entries` at `level` with sequence number
/// `seq`: the file, and the handle on it.
fn build_table(level: usize, seq: u64, entries: &Vec<(Key, Value)>) -> (built: (TableFile, SSTable))
    ensures
        built.0.path@ == table_name(level as nat, seq as nat),
        built.0.data@ == table_bytes(entries.deep_view()),
        is_table_for(built.1, built.0.path@, entries.deep_view()),
{
    let path = format_table_name(level, seq);
    let copy = copy_range(path.as_slice(), 0, path.len());
    assert(copy@ =~= path@);
    let mut table = SSTable::new(copy, None);
    let slice = entries.as_slice();
    assert(slice.deep_view() =~= entries.deep_view());
    let data = table.write(slice);
    (TableFile { path, data }, table)
}

/// Decodes the table files `contents`, in order.
fn read_tables(contents: &Vec<Vec<u8>>) -> (inputs: Result<Vec<Vec<(Key, Value)>>, FormatError>)
    ensures
        match inputs {
            Ok(list) => parse_tables(contents.deep_view()) == Ok::<_, FormatError>(
                list.deep_view(),
            ),
            Err(e) => parse_tables(contents.deep_view()) == Err::<
                Seq<Seq<(Seq<u8>, Seq<u8>)>>,
                _,
            >(e),
        },
{
    let ghost all = contents.deep_view();
    let mut list: Vec<Vec<(Key, Value)>> = Vec::new();
    let mut i: usize = 0;
    assert(all.subrange(0, 0) =~= Seq::empty());
    assert(list.deep_view() =~= Seq::empty());
    while i < contents.len()
        invariant
            i <= contents.len(),
            all == contents.deep_view(),
            parse_tables(all.subrange(0, i as int)) == Ok::<_, FormatError>(list.deep_view()),
        decreases contents.len() - i,
    {
        let ghost done = list.deep_view();
        let ghost next = all.subrange(0, i + 1);
        assert(next.drop_last() =~= all.subrange(0, i as int));
        assert(contents[i as int].deep_view() =~= contents[i as int]@);
        assert(next.last() == contents[i as int]@);
        match read_table(contents[i].as_slice()) {
            Err(e) => {
                proof {
                    lemma_parse_tables_error(all, i + 1);
                }
                return Err(e);
            },
            Ok(entries) => {
                let ghost item = entries.deep_view();
                list.push(entries);
                assert(list.deep_view() =~= done.push(item));
            },
        }
        i += 1;
    }
    assert(all.subrange(0, i as int) =~= all);
    Ok(list)
}

/// Where a first part of the table files cannot be decoded, the whole
/// cannot, with the same error.
pub proof fn lemma_parse_tables_error(contents: Seq<Seq<u8>>, n: int)
    requires
        0 <= n <= contents.len(),
        parse_tables(contents.subrange(0, n)) is Err,
    ensures
        parse_tables(contents) == parse_tables(contents.subrange(0, n)),
    decreases contents.len() - n,
{
    if n < contents.len() {
        let longer = contents.subrange(0, n + 1);
        assert(longer.drop_last() =~= contents.subrange(0, n));
        lemma_parse_tables_error(contents, n + 1);
    } else {
        assert(contents.subrange(0, n) =~= contents);
    }
}

} // verus!
