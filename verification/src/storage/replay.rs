//! Rebuilding the in-memory table from the write-ahead log.
use vstd::prelude::*;
use crate::error::FormatError;
use crate::memtable::MemTable;
use crate::storage::Storage;
use crate::wal::{Operation, parse_log, read_record, record_bytes, replay_from,
    lemma_parse_log_append};

verus! {

/// The mapping after one log record has been applied to `m`: a put maps
/// the key to the value, a delete takes the key out.
pub open spec fn apply_record(
    m: Map<Seq<u8>, Seq<u8>>,
    record: (Operation, Seq<u8>, Option<Seq<u8>>),
) -> Map<Seq<u8>, Seq<u8>> {
    match record.0 {
        Operation::Put => match record.2 {
            Some(value) => m.insert(record.1, value),
            None => m,
        },
        Operation::Delete => m.remove(record.1),
    }
}

/// The mapping after the log records have been applied to `m` in order.
pub open spec fn apply_log(
    m: Map<Seq<u8>, Seq<u8>>,
    records: Seq<(Operation, Seq<u8>, Option<Seq<u8>>)>,
) -> Map<Seq<u8>, Seq<u8>>
    decreases records.len(),
{
    if records.len() == 0 {
        m
    } else {
        apply_record(apply_log(m, records.drop_last()), records.last())
    }
}

/// Rebuilds the in-memory table from the bytes of the write-ahead log.
pub(crate) fn replay_log(log: &[u8]) -> (rebuilt: Result<MemTable, FormatError>)
    ensures
        match rebuilt {
            Ok(table) => table.wf() && parse_log(log@) is Ok && table@ == apply_log(
                Map::empty(),
                parse_log(log@)->Ok_0,
            ),
            Err(e) => parse_log(log@) == Err::<Seq<(Operation, Seq<u8>, Option<Seq<u8>>)>, _>(e),
        },
{
    let mut table = MemTable::new();
    let mut pos: usize = 0;
    let ghost mut done: Seq<(Operation, Seq<u8>, Option<Seq<u8>>)> = Seq::empty();
    proof {
        assert(log@.skip(0) =~= log@);
        if parse_log(log@) is Ok {
            assert(done + parse_log(log@)->Ok_0 =~= parse_log(log@)->Ok_0);
        }
    }
    while pos < log.len()
        invariant
            pos <= log@.len(),
            table.wf(),
            table.byte_count() <= pos,
            table@ == apply_log(Map::empty(), done),
            parse_log(log@) == replay_from(done, log@.skip(pos as int)),
        decreases log@.len() - pos,
    {
        let ghost rest = log@.skip(pos as int);
        match read_record(log, pos) {
            Err(e) => {
                return Err(e);
            },
            Ok((record, next)) => {
                let ghost item = record.deep_view();
                let ghost before = done;
                assert(rest.skip(next - pos) =~= log@.skip(next as int));
                proof {
                    done = done.push(item);
                    assert(done.drop_last() =~= before);
                    match parse_log(log@.skip(next as int)) {
                        Ok(more) => {
                            assert(before + (seq![item] + more) =~= done + more);
                        },
                        Err(_) => {},
                    }
                }
                let (op, key, value) = record;
                assert(key.deep_view() =~= key@);
                match op {
                    Operation::Put => match value {
                        Some(v) => {
                            assert(v.deep_view() =~= v@);
                            table.insert(key, v);
                        },
                        None => {},
                    },
                    Operation::Delete => {
                        table.remove(key.as_slice());
                    },
                }
                pos = next;
            },
        }
    }
    proof {
        assert(log@.skip(pos as int).len() == 0);
        assert(done + Seq::empty() =~= done);
    }
    Ok(table)
}

/// A put that is in the log is there after a restart: the log with the
/// record of the put appended is replayed to the mapping that the log
/// alone is replayed to, with the key mapped to the value.
pub proof fn lemma_replay_after_put(log: Seq<u8>, key: Seq<u8>, value: Seq<u8>)
    requires
        parse_log(log) is Ok,
        key.len() <= u32::MAX,
        value.len() <= u32::MAX,
    ensures
        parse_log(log + record_bytes(Operation::Put, key, Some(value))) is Ok,
        apply_log(
            Map::empty(),
            parse_log(log + record_bytes(Operation::Put, key, Some(value)))->Ok_0,
        ) == apply_log(Map::empty(), parse_log(log)->Ok_0).insert(key, value),
{
    let record = (Operation::Put, key, Some(value));
    lemma_parse_log_append(log, record);
    let records = parse_log(log)->Ok_0;
    assert(records.push(record).drop_last() =~= records);
}

/// A delete that is in the log is there after a restart: the log with the
/// record of the delete appended is replayed to the mapping that the log
/// alone is replayed to, without the key.
pub proof fn lemma_replay_after_delete(log: Seq<u8>, key: Seq<u8>)
    requires
        parse_log(log) is Ok,
        key.len() <= u32::MAX,
    ensures
        parse_log(log + record_bytes(Operation::Delete, key, None)) is Ok,
        apply_log(Map::empty(), parse_log(log + record_bytes(Operation::Delete, key, None))->Ok_0)
            == apply_log(Map::empty(), parse_log(log)->Ok_0).remove(key),
{
    let record = (Operation::Delete, key, None::<Seq<u8>>);
    lemma_parse_log_append(log, record);
    let records = parse_log(log)->Ok_0;
    assert(records.push(record).drop_last() =~= records);
}

impl Storage {
    /// A put is read after a restart: an engine whose in-memory table was
    /// rebuilt from a log that ends with the record of the put reads the key
    /// with the value that was put, whatever the tables hold.
    pub proof fn lemma_read_after_replay(
        &self,
        log: Seq<u8>,
        key: Seq<u8>,
        value: Seq<u8>,
        files: Map<Seq<u8>, Seq<u8>>,
    )
        requires
            parse_log(log) is Ok,
            key.len() <= u32::MAX,
            value.len() <= u32::MAX,
            self.memtable()@ == apply_log(
                Map::empty(),
                parse_log(log + record_bytes(Operation::Put, key, Some(value)))->Ok_0,
            ),
        ensures
            self.read(files, key) == Ok::<_, FormatError>(Some(value)),
    {
        lemma_replay_after_put(log, key, value);
    }
}

} // verus!
