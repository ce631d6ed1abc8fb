//! The read path: what a read returns, given the bytes of the table files,
//! and that a lookup which follows the engine's steps arrives there.
use vstd::prelude::*;
use crate::entries::{first_index, lookup, lemma_lookup_index};
use crate::error::FormatError;
use crate::naming::parse_table_name;
use crate::sstable::{BLOOM_HASH_FUNCTIONS, SSTable, filter_bit_count, parse_table_filter,
    scan_table, storable, table_bytes, table_filter_bytes, lemma_keys_filter_accepts,
    lemma_table_filter_round_trip, lemma_table_round_trip};
use crate::storage::{Step, Storage, TableFile, newest_candidate, step_at};
use crate::storage::levels::{sequence_of, tables_named, lemma_greatest_sequence_is_newest};

verus! {

/// What a search of the first `below` tables of a level returns, the
/// newest first: the value of the first entry with the key in the first
/// table that may hold the key and has one. `files` maps the path of a
/// table file to its bytes.
pub open spec fn search_tables(
    tables: Seq<SSTable>,
    files: Map<Seq<u8>, Seq<u8>>,
    key: Seq<u8>,
    below: int,
) -> Result<Option<Seq<u8>>, FormatError>
    decreases below,
{
    if below <= 0 || below > tables.len() {
        Ok(None)
    } else if !tables[below - 1].may_contain(key) {
        search_tables(tables, files, key, below - 1)
    } else {
        match scan_table(files[tables[below - 1].path()], key) {
            Err(e) => Err(e),
            Ok(Some(value)) => Ok(Some(value)),
            Ok(None) => search_tables(tables, files, key, below - 1),
        }
    }
}

/// The number of tables to search below position `index`, in a level that
/// holds `count` tables.
pub open spec fn clip(index: nat, count: nat) -> int {
    if index > count {
        count as int
    } else {
        index as int
    }
}

/// A search of tables goes to the newest table that may hold the key, and
/// from there to the older ones; it finds nothing where no table may hold
/// the key.
pub proof fn lemma_search_tables(
    tables: Seq<SSTable>,
    files: Map<Seq<u8>, Seq<u8>>,
    key: Seq<u8>,
    below: int,
)
    requires
        below <= tables.len(),
    ensures
        match newest_candidate(tables, key, below) {
            None => search_tables(tables, files, key, below) == Ok::<Option<Seq<u8>>, FormatError>(
                None,
            ),
            Some(i) => 0 <= i < below && tables[i].may_contain(key) && search_tables(
                tables,
                files,
                key,
                below,
            ) == match scan_table(files[tables[i].path()], key) {
                Err(e) => Err(e),
                Ok(Some(value)) => Ok(Some(value)),
                Ok(None) => search_tables(tables, files, key, i),
            },
        },
    decreases below,
{
    if below > 0 && !tables[below - 1].may_contain(key) {
        lemma_search_tables(tables, files, key, below - 1);
    }
}

/// Tables give nothing for a key for which none of them that may hold it
/// has an entry.
pub proof fn lemma_tables_without(
    tables: Seq<SSTable>,
    files: Map<Seq<u8>, Seq<u8>>,
    key: Seq<u8>,
    below: int,
)
    requires
        below <= tables.len(),
        forall|i: int|
            0 <= i < tables.len() && (#[trigger] tables[i]).may_contain(key) ==> scan_table(
                files[tables[i].path()],
                key,
            ) == Ok::<Option<Seq<u8>>, FormatError>(None),
    ensures
        search_tables(tables, files, key, below) == Ok::<Option<Seq<u8>>, FormatError>(None),
    decreases below,
{
    if below > 0 {
        lemma_tables_without(tables, files, key, below - 1);
    }
}

impl Storage {
    /// What a search of the levels from `level` upwards returns.
    pub open spec fn read_levels(&self, files: Map<Seq<u8>, Seq<u8>>, key: Seq<u8>, level: nat)
        -> Result<Option<Seq<u8>>, FormatError>
        decreases self.top() + 1 - level,
    {
        if level > self.top() {
            Ok(None)
        } else {
            match search_tables(
                self.tables(level),
                files,
                key,
                self.tables(level).len() as int,
            ) {
                Ok(None) => self.read_levels(files, key, level + 1),
                other => other,
            }
        }
    }

    /// What a read of `key` returns: the value in the in-memory table or,
    /// where it has none, what the search of the levels returns, from level
    /// 0 upwards.
    pub open spec fn read(&self, files: Map<Seq<u8>, Seq<u8>>, key: Seq<u8>) -> Result<
        Option<Seq<u8>>,
        FormatError,
    > {
        if self.memtable()@.contains_key(key) {
            Ok(Some(self.memtable()@[key]))
        } else {
            self.read_levels(files, key, 0)
        }
    }

    /// What is left of a read after the table at `(level, index)` has been
    /// searched in vain: the older tables of the level, then the levels
    /// above.
    pub open spec fn read_after(
        &self,
        files: Map<Seq<u8>, Seq<u8>>,
        key: Seq<u8>,
        level: nat,
        index: nat,
    ) -> Result<Option<Seq<u8>>, FormatError> {
        match search_tables(
            self.tables(level),
            files,
            key,
            clip(index, self.tables(level).len()),
        ) {
            Ok(None) => self.read_levels(files, key, level + 1),
            other => other,
        }
    }

    /// What a lookup returns that goes on with `step`.
    pub open spec fn resume(&self, files: Map<Seq<u8>, Seq<u8>>, key: Seq<u8>, step: Step)
        -> Result<Option<Seq<u8>>, FormatError> {
        match step {
            Step::Found(value) => Ok(Some(value)),
            Step::Absent => Ok(None),
            Step::Read(level, index) => match scan_table(
                files[self.tables(level)[index as int].path()],
                key,
            ) {
                Err(e) => Err(e),
                Ok(Some(value)) => Ok(Some(value)),
                Ok(None) => self.read_after(files, key, level, index),
            },
        }
    }

    /// A search of the levels goes to the first place at which a table may
    /// hold the key.
    pub proof fn lemma_read_levels(&self, files: Map<Seq<u8>, Seq<u8>>, key: Seq<u8>, level: nat)
        ensures
            self.read_levels(files, key, level) == self.resume(
                files,
                key,
                step_at(self.candidate_from(key, level)),
            ),
            self.candidate_from(key, level) matches Some((l, i)) ==> level <= l <= self.top() && i
                < self.tables(l).len(),
        decreases self.top() + 1 - level,
    {
        if level <= self.top() {
            let tables = self.tables(level);
            lemma_search_tables(tables, files, key, tables.len() as int);
            self.lemma_read_levels(files, key, level + 1);
        }
    }

    /// A read is what the lookup returns that starts with the first step.
    pub proof fn lemma_read_starts(&self, files: Map<Seq<u8>, Seq<u8>>, key: Seq<u8>)
        ensures
            self.read(files, key) == self.resume(files, key, self.first_step(key)),
    {
        self.lemma_read_levels(files, key, 0);
    }

    /// A lookup that has read the table at `(level, index)` and takes the
    /// next step returns what it was about to return: following the steps
    /// with the bytes of the files leads to the result of the read.
    pub proof fn lemma_read_goes_on(
        &self,
        files: Map<Seq<u8>, Seq<u8>>,
        key: Seq<u8>,
        level: nat,
        index: nat,
    )
        ensures
            self.resume(files, key, Step::Read(level, index)) == match self.next_step(
                key,
                level,
                index,
                files[self.tables(level)[index as int].path()],
            ) {
                Err(e) => Err(e),
                Ok(step) => self.resume(files, key, step),
            },
    {
        let tables = self.tables(level);
        lemma_search_tables(tables, files, key, clip(index, tables.len()));
        self.lemma_read_levels(files, key, level + 1);
    }

    /// A key that was put, and not flushed since, is read with the value
    /// that was put, whatever the tables hold.
    pub proof fn lemma_read_after_put(
        &self,
        before: &Self,
        files: Map<Seq<u8>, Seq<u8>>,
        key: Seq<u8>,
        value: Seq<u8>,
    )
        requires
            self.memtable()@ == before.memtable()@.insert(key, value),
        ensures
            self.read(files, key) == Ok::<_, FormatError>(Some(value)),
            self.first_step(key) == Step::Found(value),
    {
    }

    /// A key that was deleted is not read from the in-memory table; it is
    /// read as absent where no table that may hold it has an entry for it.
    pub proof fn lemma_read_after_delete(
        &self,
        before: &Self,
        files: Map<Seq<u8>, Seq<u8>>,
        key: Seq<u8>,
    )
        requires
            self.memtable()@ == before.memtable()@.remove(key),
            forall|level: nat, i: int|
                0 <= i < self.tables(level).len() && (#[trigger] self.tables(level)[i]).may_contain(
                    key,
                ) ==> scan_table(files[self.tables(level)[i].path()], key) == Ok::<
                    Option<Seq<u8>>,
                    FormatError,
                >(None),
        ensures
            !self.memtable()@.contains_key(key),
            self.read(files, key) == Ok::<Option<Seq<u8>>, FormatError>(None),
    {
        self.lemma_levels_without(files, key, 0);
    }

    /// The levels give nothing for a key for which no table that may hold
    /// it has an entry.
    pub proof fn lemma_levels_without(
        &self,
        files: Map<Seq<u8>, Seq<u8>>,
        key: Seq<u8>,
        level: nat,
    )
        requires
            forall|level: nat, i: int|
                0 <= i < self.tables(level).len() && (#[trigger] self.tables(level)[i]).may_contain(
                    key,
                ) ==> scan_table(files[self.tables(level)[i].path()], key) == Ok::<
                    Option<Seq<u8>>,
                    FormatError,
                >(None),
        ensures
            self.read_levels(files, key, level) == Ok::<Option<Seq<u8>>, FormatError>(None),
        decreases self.top() + 1 - level,
    {
        if level <= self.top() {
            lemma_tables_without(self.tables(level), files, key, self.tables(level).len() as int);
            self.lemma_levels_without(files, key, level + 1);
        }
    }

    /// What was flushed is read back: after a flush, a key among the
    /// flushed entries is read with the value it had there, from the new
    /// table file.
    pub proof fn lemma_read_after_flush(
        &self,
        before: &Self,
        entries: Seq<(Seq<u8>, Seq<u8>)>,
        file: TableFile,
        files: Map<Seq<u8>, Seq<u8>>,
        key: Seq<u8>,
    )
        requires
            self.flushed_from(before, entries, file),
            storable(entries),
            table_filter_bytes(entries).len() <= u32::MAX,
            files.contains_key(file.path@),
            files[file.path@] == file.data@,
            lookup(entries, key) is Some,
        ensures
            self.read(files, key) == Ok::<_, FormatError>(lookup(entries, key)),
    {
        let tables = self.tables(0);
        let newest = tables.last();
        lemma_lookup_index(entries, key);
        lemma_keys_filter_accepts(
            entries,
            filter_bit_count(entries.len()),
            BLOOM_HASH_FUNCTIONS as nat,
            first_index(entries, key),
        );
        lemma_table_round_trip(entries);
        assert(newest.may_contain(key));
        assert(scan_table(files[newest.path()], key) == Ok::<_, FormatError>(lookup(entries, key)));
        assert(search_tables(tables, files, key, tables.len() as int) == Ok::<_, FormatError>(
            lookup(entries, key),
        ));
    }

    /// The newest table of a level answers a read, where the in-memory
    /// table has nothing for the key and no table of a lower level that may
    /// hold the key has an entry for it.
    pub proof fn lemma_read_newest_table(
        &self,
        files: Map<Seq<u8>, Seq<u8>>,
        key: Seq<u8>,
        level: nat,
        value: Seq<u8>,
    )
        requires
            self.wf(),
            !self.memtable()@.contains_key(key),
            forall|lower: nat, i: int|
                lower < level && 0 <= i < self.tables(lower).len() && (
                #[trigger] self.tables(lower)[i]).may_contain(key) ==> scan_table(
                    files[self.tables(lower)[i].path()],
                    key,
                ) == Ok::<Option<Seq<u8>>, FormatError>(None),
            self.tables(level).len() > 0,
            self.tables(level).last().may_contain(key),
            scan_table(files[self.tables(level).last().path()], key) == Ok::<_, FormatError>(
                Some(value),
            ),
        ensures
            self.read(files, key) == Ok::<_, FormatError>(Some(value)),
    {
        self.lemma_wf();
        self.lemma_read_from_below(files, key, level, value, 0);
    }

    /// The search from a level at or below `level` upwards comes to the
    /// newest table of `level`.
    pub proof fn lemma_read_from_below(
        &self,
        files: Map<Seq<u8>, Seq<u8>>,
        key: Seq<u8>,
        level: nat,
        value: Seq<u8>,
        from: nat,
    )
        requires
            from <= level <= self.top(),
            forall|lower: nat, i: int|
                lower < level && 0 <= i < self.tables(lower).len() && (
                #[trigger] self.tables(lower)[i]).may_contain(key) ==> scan_table(
                    files[self.tables(lower)[i].path()],
                    key,
                ) == Ok::<Option<Seq<u8>>, FormatError>(None),
            self.tables(level).len() > 0,
            self.tables(level).last().may_contain(key),
            scan_table(files[self.tables(level).last().path()], key) == Ok::<_, FormatError>(
                Some(value),
            ),
        ensures
            self.read_levels(files, key, from) == Ok::<_, FormatError>(Some(value)),
        decreases level - from,
    {
        if from < level {
            lemma_tables_without(self.tables(from), files, key, self.tables(from).len() as int);
            self.lemma_read_from_below(files, key, level, value, from + 1);
        }
    }

    /// A table that was written is read back after a restart. Let the
    /// engine hold, at each level, the tables that a restart finds among
    /// the handles `found`; let the handle at `j` be opened on the file that
    /// holds `entries`, named for `level` with the greatest sequence number
    /// of that level. Then a key among the entries is read with the value
    /// it has there, where the in-memory table has nothing for the key and
    /// no table of a lower level that may hold the key has an entry for it.
    pub proof fn lemma_read_after_restart(
        &self,
        found: Seq<SSTable>,
        j: int,
        level: nat,
        entries: Seq<(Seq<u8>, Seq<u8>)>,
        files: Map<Seq<u8>, Seq<u8>>,
        key: Seq<u8>,
    )
        requires
            self.wf(),
            forall|l: nat| self.tables(l) == tables_named(found, l),
            0 <= j < found.len(),
            parse_table_name(found[j].path()) matches Some((l, _)) && l == level,
            forall|i: int|
                0 <= i < found.len() && i != j ==> (parse_table_name(
                    (#[trigger] found[i]).path(),
                ) matches Some((l, seq)) ==> l != level || seq < sequence_of(found[j])),
            found[j].filter() == parse_table_filter(table_bytes(entries)),
            files[found[j].path()] == table_bytes(entries),
            storable(entries),
            filter_bit_count(entries.len()) <= u32::MAX,
            lookup(entries, key) is Some,
            !self.memtable()@.contains_key(key),
            forall|lower: nat, i: int|
                lower < level && 0 <= i < self.tables(lower).len() && (
                #[trigger] self.tables(lower)[i]).may_contain(key) ==> scan_table(
                    files[self.tables(lower)[i].path()],
                    key,
                ) == Ok::<Option<Seq<u8>>, FormatError>(None),
        ensures
            self.read(files, key) == Ok::<_, FormatError>(lookup(entries, key)),
    {
        lemma_greatest_sequence_is_newest(found, level, j);
        lemma_table_filter_round_trip(entries);
        lemma_table_round_trip(entries);
        lemma_lookup_index(entries, key);
        lemma_keys_filter_accepts(
            entries,
            filter_bit_count(entries.len()),
            BLOOM_HASH_FUNCTIONS as nat,
            first_index(entries, key),
        );
        assert(self.tables(level).last() == found[j]);
        self.lemma_read_newest_table(files, key, level, lookup(entries, key)->0);
    }
}

} // verus!
