//! The write-ahead log: an append-only sequence of records, one for each
//! mutation, from which the in-memory table is rebuilt after a restart.
//!
//! A record is one operation byte (0 for a put, 1 for a delete), the key as
//! a length-prefixed field and, for a put, the value as a second one.
use vstd::prelude::*;
use crate::bytes::{copy_range, field_bytes, parse_field, put_field, read_field,
    lemma_parse_field_bytes};
use crate::error::FormatError;
use crate::{Key, Value};

verus! {

/// The two kinds of mutation that the log records.
#[derive(Debug, Clone, Copy, PartialEq, Eq, Structural)]
pub enum Operation {
    Put,
    Delete,
}

impl View for Operation {
    type V = Operation;

    open spec fn view(&self) -> Operation {
        *self
    }
}

impl DeepView for Operation {
    type V = Operation;

    open spec fn deep_view(&self) -> Operation {
        *self
    }
}

/// The byte that stands for an operation in a record.
pub open spec fn operation_byte(op: Operation) -> u8 {
    match op {
        Operation::Put => 0u8,
        Operation::Delete => 1u8,
    }
}

/// The bytes of one record: the operation byte, the key field and, where a
/// value is given, the value field.
pub open spec fn record_bytes(op: Operation, key: Seq<u8>, value: Option<Seq<u8>>) -> Seq<u8> {
    seq![operation_byte(op)] + field_bytes(key) + match value {
        Some(v) => field_bytes(v),
        None => Seq::<u8>::empty(),
    }
}

/// Reads the record at the start of `data`, which is not empty: the record
/// and the number of bytes it takes.
pub open spec fn parse_record(data: Seq<u8>) -> Result<
    ((Operation, Seq<u8>, Option<Seq<u8>>), int),
    FormatError,
> {
    if data[0] != 0 && data[0] != 1 {
        Err(FormatError::Operation)
    } else {
        match parse_field(data.skip(1)) {
            None => Err(FormatError::Record),
            Some((key, key_used)) => if data[0] == 1 {
                Ok(((Operation::Delete, key, None), 1 + key_used))
            } else {
                match parse_field(data.skip(1 + key_used)) {
                    None => Err(FormatError::Record),
                    Some((value, value_used)) => Ok(
                        ((Operation::Put, key, Some(value)), 1 + key_used + value_used),
                    ),
                }
            },
        }
    }
}

/// Reads `data` as a sequence of records, up to its end. The first record
/// that cannot be read decides the error.
pub open spec fn parse_log(data: Seq<u8>) -> Result<
    Seq<(Operation, Seq<u8>, Option<Seq<u8>>)>,
    FormatError,
>
    decreases data.len(),
{
    if data.len() == 0 {
        Ok(Seq::empty())
    } else {
        match parse_record(data) {
            Err(e) => Err(e),
            Ok((record, used)) => if 0 < used <= data.len() {
                match parse_log(data.skip(used)) {
                    Err(e) => Err(e),
                    Ok(rest) => Ok(seq![record] + rest),
                }
            } else {
                Err(FormatError::Record)
            },
        }
    }
}

/// The bytes of a sequence of records, one after the other.
pub open spec fn log_bytes(records: Seq<(Operation, Seq<u8>, Option<Seq<u8>>)>) -> Seq<u8>
    decreases records.len(),
{
    if records.len() == 0 {
        Seq::empty()
    } else {
        record_bytes(records[0].0, records[0].1, records[0].2) + log_bytes(records.skip(1))
    }
}

/// A record that the format can hold: a put carries a value and a delete
/// carries none, and key and value fit a 32-bit length.
pub open spec fn storable(record: (Operation, Seq<u8>, Option<Seq<u8>>)) -> bool {
    &&& record.1.len() <= u32::MAX
    &&& match record.0 {
        Operation::Put => record.2 is Some && record.2->0.len() <= u32::MAX,
        Operation::Delete => record.2 is None,
    }
}

/// A storable record is read back as written, whatever follows it.
pub proof fn lemma_parse_record_bytes(
    record: (Operation, Seq<u8>, Option<Seq<u8>>),
    rest: Seq<u8>,
)
    requires
        storable(record),
    ensures
        parse_record(record_bytes(record.0, record.1, record.2) + rest) == Ok::<_, FormatError>(
            (record, record_bytes(record.0, record.1, record.2).len() as int),
        ),
        record_bytes(record.0, record.1, record.2).len() > 0,
{
    let bytes = record_bytes(record.0, record.1, record.2);
    let data = bytes + rest;
    let key = record.1;
    match record.2 {
        Some(v) => {
            lemma_parse_field_bytes(key, field_bytes(v) + rest);
            lemma_parse_field_bytes(v, rest);
            assert(data.skip(1) =~= field_bytes(key) + (field_bytes(v) + rest));
            assert(data.skip(1 + (4 + key.len() as int)) =~= field_bytes(v) + rest);
        },
        None => {
            lemma_parse_field_bytes(key, rest);
            assert(data.skip(1) =~= field_bytes(key) + rest);
        },
    }
}

/// Replaying the bytes of storable records yields exactly those records,
/// in order.
pub proof fn lemma_parse_log_bytes(records: Seq<(Operation, Seq<u8>, Option<Seq<u8>>)>)
    requires
        forall|i: int| 0 <= i < records.len() ==> storable(#[trigger] records[i]),
    ensures
        parse_log(log_bytes(records)) == Ok::<_, FormatError>(records),
    decreases records.len(),
{
    if records.len() > 0 {
        let first = records[0];
        let rest = records.skip(1);
        assert forall|i: int| 0 <= i < rest.len() implies storable(#[trigger] rest[i]) by {
            assert(rest[i] == records[i + 1]);
        }
        lemma_parse_log_bytes(rest);
        lemma_parse_record_bytes(first, log_bytes(rest));
        let head = record_bytes(first.0, first.1, first.2);
        assert(log_bytes(records) == head + log_bytes(rest));
        assert(log_bytes(records).skip(head.len() as int) =~= log_bytes(rest));
        assert(seq![first] + rest =~= records);
    } else {
        assert(records =~= Seq::empty());
    }
}

/// Appending one storable record to a log that can be replayed adds that
/// record at the end of what is replayed.
pub proof fn lemma_parse_log_append(data: Seq<u8>, record: (Operation, Seq<u8>, Option<Seq<u8>>))
    requires
        parse_log(data) is Ok,
        storable(record),
    ensures
        parse_log(data + record_bytes(record.0, record.1, record.2)) == Ok::<_, FormatError>(
            parse_log(data)->Ok_0.push(record),
        ),
    decreases data.len(),
{
    let tail = record_bytes(record.0, record.1, record.2);
    if data.len() == 0 {
        assert(data + tail =~= log_bytes(seq![record])) by {
            assert(seq![record].skip(1) =~= Seq::empty());
            assert(log_bytes(seq![record].skip(1)) =~= Seq::<u8>::empty());
        }
        lemma_parse_log_bytes(seq![record]);
        assert(parse_log(data)->Ok_0.push(record) =~= seq![record]);
    } else {
        let (first, used) = parse_record(data)->Ok_0;
        lemma_parse_record_extend(data, tail);
        assert((data + tail).skip(used) =~= data.skip(used) + tail);
        lemma_parse_log_append(data.skip(used), record);
        let rest = parse_log(data.skip(used))->Ok_0;
        assert(seq![first] + rest.push(record) =~= (seq![first] + rest).push(record));
    }
}

/// A record that can be read from `data` is read the same way when more
/// bytes follow `data`.
pub proof fn lemma_parse_record_extend(data: Seq<u8>, more: Seq<u8>)
    requires
        data.len() > 0,
        parse_record(data) is Ok,
    ensures
        parse_record(data + more) == parse_record(data),
{
    let both = data + more;
    assert(both[0] == data[0]);
    lemma_parse_field_extend(data.skip(1), more);
    assert(both.skip(1) =~= data.skip(1) + more);
    let key_field = parse_field(data.skip(1))->0;
    let used = key_field.1;
    if data[0] == 0 {
        lemma_parse_field_extend(data.skip(1 + used), more);
        assert(both.skip(1 + used) =~= data.skip(1 + used) + more);
    }
}

/// A field that can be read from `data` is read the same way when more
/// bytes follow `data`.
pub proof fn lemma_parse_field_extend(data: Seq<u8>, more: Seq<u8>)
    requires
        parse_field(data) is Some,
    ensures
        parse_field(data + more) == parse_field(data),
{
    let both = data + more;
    assert(both.subrange(0, 4) =~= data.subrange(0, 4));
    let field = parse_field(data)->0;
    let len = field.1 - 4;
    assert(both.subrange(4, 4 + len) =~= data.subrange(4, 4 + len));
}

/// The contents of a write-ahead log.
pub struct WAL {
    data: Vec<u8>,
}

impl View for WAL {
    type V = Seq<u8>;

    /// The bytes of the log.
    closed spec fn view(&self) -> Seq<u8> {
        self.data@
    }
}

impl WAL {
    /// An empty log.
    pub fn new() -> (log: Self)
        ensures
            log@ == Seq::<u8>::empty(),
    {
        WAL { data: Vec::new() }
    }

    /// The log that holds the bytes `data`.
    pub fn from_bytes(data: Vec<u8>) -> (log: Self)
        ensures
            log@ == data@,
    {
        WAL { data }
    }

    /// The bytes of the log.
    pub fn as_bytes(&self) -> (data: &[u8])
        ensures
            data@ == self@,
    {
        self.data.as_slice()
    }

    /// Appends one record to the log: the operation byte, the key and, where
    /// `value` is given, the value.
    pub fn append(&mut self, op: Operation, key: &[u8], value: Option<&[u8]>)
        ensures
            final(self)@ == old(self)@ + record_bytes(op, key@, value.deep_view()),
    {
        let op_byte: u8 = match op {
            Operation::Put => 0u8,
            Operation::Delete => 1u8,
        };
        self.data.push(op_byte);
        put_field(&mut self.data, key);
        match value {
            Some(v) => {
                put_field(&mut self.data, v);
                assert(self@ =~= old(self)@ + record_bytes(op, key@, Some(v@)));
            },
            None => {
                assert(self@ =~= old(self)@ + record_bytes(op, key@, None));
            },
        }
    }

    /// Decodes the records of the log, in the order in which they were
    /// appended. A first byte that names no operation and a record that is
    /// cut short are errors.
    pub fn replay(&self) -> (records: Result<Vec<(Operation, Key, Option<Value>)>, FormatError>)
        ensures
            match records {
                Ok(list) => parse_log(self@) == Ok::<_, FormatError>(list.deep_view()),
                Err(e) => parse_log(self@) == Err::<Seq<(Operation, Seq<u8>, Option<Seq<u8>>)>, _>(e),
            },
    {
        replay_bytes(self.data.as_slice())
    }

    /// Empties the log.
    pub fn clear(&mut self)
        ensures
            final(self)@ == Seq::<u8>::empty(),
    {
        self.data = Vec::new();
    }
}

/// What is still to come of a replay that has read `done` and has `rest`
/// left to read.
pub open spec fn replay_from(
    done: Seq<(Operation, Seq<u8>, Option<Seq<u8>>)>,
    rest: Seq<u8>,
) -> Result<Seq<(Operation, Seq<u8>, Option<Seq<u8>>)>, FormatError> {
    match parse_log(rest) {
        Ok(more) => Ok(done + more),
        Err(e) => Err(e),
    }
}

/// Reads the record that starts at `pos`: the record and the position at
/// which the next one starts.
pub fn read_record(data: &[u8], pos: usize) -> (read: Result<
    ((Operation, Key, Option<Value>), usize),
    FormatError,
>)
    requires
        pos < data@.len(),
    ensures
        match read {
            Ok((record, next)) => pos < next <= data@.len() && parse_record(
                data@.skip(pos as int),
            ) == Ok::<_, FormatError>((record.deep_view(), next - pos)) && record.1@.len() + (
            match record.2 {
                Some(v) => v@.len(),
                None => 0,
            }) < next - pos && (record.0 == Operation::Put <==> record.2 is Some),
            Err(e) => parse_record(data@.skip(pos as int)) == Err::<
                ((Operation, Seq<u8>, Option<Seq<u8>>), int),
                _,
            >(e),
        },
{
    let ghost rest = data@.skip(pos as int);
    let op_byte = data[pos];
    assert(rest[0] == op_byte);
    if op_byte != 0 && op_byte != 1 {
        return Err(FormatError::Operation);
    }
    assert(rest.skip(1) =~= data@.skip(pos + 1));
    let (key_start, key_end) = match read_field(data, pos + 1) {
        Some(span) => span,
        None => {
            return Err(FormatError::Record);
        },
    };
    let key = copy_range(data, key_start, key_end);
    assert(key.deep_view() =~= key@);
    if op_byte == 1 {
        return Ok(((Operation::Delete, key, None), key_end));
    }
    assert(rest.skip(1 + (key_end - pos - 1)) =~= data@.skip(key_end as int));
    let (value_start, value_end) = match read_field(data, key_end) {
        Some(span) => span,
        None => {
            return Err(FormatError::Record);
        },
    };
    let value = copy_range(data, value_start, value_end);
    assert(value.deep_view() =~= value@);
    Ok(((Operation::Put, key, Some(value)), value_end))
}

/// Decodes `data` as the contents of a log.
pub fn replay_bytes(data: &[u8]) -> (records: Result<
    Vec<(Operation, Key, Option<Value>)>,
    FormatError,
>)
    ensures
        match records {
            Ok(list) => parse_log(data@) == Ok::<_, FormatError>(list.deep_view()),
            Err(e) => parse_log(data@) == Err::<Seq<(Operation, Seq<u8>, Option<Seq<u8>>)>, _>(e),
        },
{
    let mut entries: Vec<(Operation, Key, Option<Value>)> = Vec::new();
    let mut pos: usize = 0;
    proof {
        assert(data@.skip(0) =~= data@);
        assert(entries.deep_view() =~= Seq::empty());
        if parse_log(data@) is Ok {
            assert(Seq::<(Operation, Seq<u8>, Option<Seq<u8>>)>::empty() + parse_log(data@)->Ok_0
                =~= parse_log(data@)->Ok_0);
        }
    }
    while pos < data.len()
        invariant
            pos <= data@.len(),
            parse_log(data@) == replay_from(entries.deep_view(), data@.skip(pos as int)),
        decreases data@.len() - pos,
    {
        let ghost rest = data@.skip(pos as int);
        let ghost done = entries.deep_view();
        match read_record(data, pos) {
            Err(e) => {
                return Err(e);
            },
            Ok((record, next)) => {
                let ghost item = record.deep_view();
                assert(rest.skip(next - pos) =~= data@.skip(next as int));
                entries.push(record);
                proof {
                    assert(entries.deep_view() =~= done.push(item));
                    match parse_log(data@.skip(next as int)) {
                        Ok(more) => {
                            assert(done + (seq![item] + more) =~= done.push(item) + more);
                        },
                        Err(_) => {},
                    }
                }
                pos = next;
            },
        }
    }
    proof {
        assert(data@.skip(pos as int).len() == 0);
        assert(entries.deep_view() + Seq::empty() =~= entries.deep_view());
    }
    Ok(entries)
}

} // verus!
