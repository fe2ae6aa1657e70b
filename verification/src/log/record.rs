//! The layout of a log record: one write to the MemTable, as bytes.
//!
//! A record starts with a tag byte, `0` for a put and `1` for a delete,
//! followed by the length of the key as four bytes, most significant first,
//! and the key itself. In a put the rest of the record is the value; a
//! delete ends with its key. Anything else is not a record and changes
//! nothing when a log entry is applied.

use vstd::prelude::*;
use vstd::slice::slice_subrange;

use super::mem_table::{MemTable, TableView};

verus! {

pub const TAG_PUT: u8 = 0;

pub const TAG_DELETE: u8 = 1;

/// Number of bytes before the key: the tag and the key's length.
pub const HEADER_LEN: usize = 5;

/// The largest key that a record can carry.
pub const MAX_KEY_LEN: usize = 0xFFFF_FFFF;

/// A write that a record stands for.
pub enum Command {
    Put { key: Seq<u8>, value: Seq<u8> },
    Delete { key: Seq<u8> },
}

/// A decoded record, borrowing the key and the value from its bytes.
#[derive(Clone, Copy, Debug)]
pub enum Operation<'a> {
    Put { key: &'a [u8], value: &'a [u8] },
    Delete { key: &'a [u8] },
}

impl<'a> View for Operation<'a> {
    type V = Command;

    open spec fn view(&self) -> Command {
        match self {
            Operation::Put { key, value } => Command::Put { key: key@, value: value@ },
            Operation::Delete { key } => Command::Delete { key: key@ },
        }
    }
}

/// The number that four bytes spell, most significant first.
pub open spec fn big_endian(b0: u8, b1: u8, b2: u8, b3: u8) -> nat {
    (b0 * 0x100_0000 + b1 * 0x1_0000 + b2 * 0x100 + b3) as nat
}

/// The header of a record for a command with a key of `key_len` bytes.
pub open spec fn header(tag: u8, key_len: nat) -> Seq<u8> {
    seq![
        tag,
        (key_len / 0x100_0000) as u8,
        (key_len / 0x1_0000 % 0x100) as u8,
        (key_len / 0x100 % 0x100) as u8,
        (key_len % 0x100) as u8,
    ]
}

/// The bytes of the record for a command.
pub open spec fn encode(command: Command) -> Seq<u8> {
    match command {
        Command::Put { key, value } => header(TAG_PUT, key.len()) + key + value,
        Command::Delete { key } => header(TAG_DELETE, key.len()) + key,
    }
}

/// The command that a byte string spells, if it is a record.
pub open spec fn parse(record: Seq<u8>) -> Option<Command> {
    if record.len() < HEADER_LEN {
        None
    } else {
        let key_end = HEADER_LEN + big_endian(record[1], record[2], record[3], record[4]);
        if record.len() < key_end {
            None
        } else if record[0] == TAG_PUT {
            Some(
                Command::Put {
                    key: record.subrange(HEADER_LEN as int, key_end as int),
                    value: record.subrange(key_end as int, record.len() as int),
                },
            )
        } else if record[0] == TAG_DELETE && record.len() == key_end {
            Some(Command::Delete { key: record.subrange(HEADER_LEN as int, key_end as int) })
        } else {
            None
        }
    }
}

/// Whether `decoded` is the operation that the model reads from a record.
pub open spec fn decoded_is(decoded: Option<Operation<'_>>, expected: Option<Command>) -> bool {
    match expected {
        Some(command) => decoded is Some && decoded->Some_0@ == command,
        None => decoded is None,
    }
}

/// Reads a record.
pub fn decode<'a>(record: &'a [u8]) -> (decoded: Option<Operation<'a>>)
    ensures
        decoded_is(decoded, parse(record@)),
{
    if record.len() < HEADER_LEN {
        return None;
    }
    let key_len: u64 = (record[1] as u64) * 0x100_0000 + (record[2] as u64) * 0x1_0000 + (
    record[3] as u64) * 0x100 + (record[4] as u64);
    if ((record.len() - HEADER_LEN) as u64) < key_len {
        return None;
    }
    let key_end: usize = HEADER_LEN + key_len as usize;
    let tag = record[0];
    if tag == TAG_PUT {
        Some(
            Operation::Put {
                key: slice_subrange(record, HEADER_LEN, key_end),
                value: slice_subrange(record, key_end, record.len()),
            },
        )
    } else if tag == TAG_DELETE && record.len() == key_end {
        Some(Operation::Delete { key: slice_subrange(record, HEADER_LEN, key_end) })
    } else {
        None
    }
}

/// Starts a record: the tag and the length of the key.
fn start_record(tag: u8, key_len: usize, capacity: usize) -> (record: Vec<u8>)
    requires
        key_len <= MAX_KEY_LEN,
    ensures
        record@ == header(tag, key_len as nat),
{
    let mut record: Vec<u8> = Vec::with_capacity(capacity);
    record.push(tag);
    record.push((key_len / 0x100_0000) as u8);
    record.push((key_len / 0x1_0000 % 0x100) as u8);
    record.push((key_len / 0x100 % 0x100) as u8);
    record.push((key_len % 0x100) as u8);
    assert(record@ =~= header(tag, key_len as nat));
    record
}

/// Appends a copy of `bytes` to `record`.
fn append_bytes(record: &mut Vec<u8>, bytes: &[u8])
    ensures
        final(record)@ == old(record)@ + bytes@,
{
    let ghost start = record@;
    let mut at: usize = 0;
    while at < bytes.len()
        invariant
            at <= bytes.len(),
            record@ == start + bytes@.subrange(0, at as int),
        decreases bytes.len() - at,
    {
        record.push(bytes[at]);
        at += 1;
        assert(record@ =~= start + bytes@.subrange(0, at as int));
    }
    assert(bytes@.subrange(0, at as int) =~= bytes@);
}

/// Whether a record can carry a key and a value of these lengths: the
/// key's length has to fit its four bytes, and the record a slice.
pub open spec fn encodable(key_len: nat, value_len: nat) -> bool {
    key_len <= MAX_KEY_LEN && HEADER_LEN + key_len + value_len <= usize::MAX
}

/// Writes the record that puts `value` under `key`.
pub fn encode_put(key: &[u8], value: &[u8]) -> (record: Option<Vec<u8>>)
    ensures
        record is Some <==> encodable(key@.len(), value@.len()),
        record is Some ==> record->Some_0@ == encode(Command::Put { key: key@, value: value@ }),
{
    if key.len() > MAX_KEY_LEN || key.len() > usize::MAX - HEADER_LEN {
        return None;
    }
    if value.len() > usize::MAX - HEADER_LEN - key.len() {
        return None;
    }
    let mut record = start_record(TAG_PUT, key.len(), HEADER_LEN + key.len() + value.len());
    append_bytes(&mut record, key);
    append_bytes(&mut record, value);
    Some(record)
}

/// Writes the record that deletes `key`.
pub fn encode_delete(key: &[u8]) -> (record: Option<Vec<u8>>)
    ensures
        record is Some <==> encodable(key@.len(), 0),
        record is Some ==> record->Some_0@ == encode(Command::Delete { key: key@ }),
{
    if key.len() > MAX_KEY_LEN || key.len() > usize::MAX - HEADER_LEN {
        return None;
    }
    let mut record = start_record(TAG_DELETE, key.len(), HEADER_LEN + key.len());
    append_bytes(&mut record, key);
    Some(record)
}

/// A record reads back as the command it was written for.
pub proof fn lemma_parse_encode(command: Command)
    requires
        match command {
            Command::Put { key, value } => key.len() <= MAX_KEY_LEN,
            Command::Delete { key } => key.len() <= MAX_KEY_LEN,
        },
    ensures
        parse(encode(command)) == Some(command),
{
    let record = encode(command);
    match command {
        Command::Put { key, value } => {
            let n = key.len();
            assert(big_endian(record[1], record[2], record[3], record[4]) == n);
            assert(record.subrange(HEADER_LEN as int, HEADER_LEN + n) =~= key);
            assert(record.subrange(HEADER_LEN + n, record.len() as int) =~= value);
        },
        Command::Delete { key } => {
            let n = key.len();
            assert(big_endian(record[1], record[2], record[3], record[4]) == n);
            assert(record.subrange(HEADER_LEN as int, HEADER_LEN + n) =~= key);
        },
    }
}

impl TableView {
    /// The buffer after one command.
    pub open spec fn apply(self, command: Command) -> TableView {
        match command {
            Command::Put { key, value } => self.put(key, value),
            Command::Delete { key } => self.delete(key),
        }
    }

    /// The buffer after one record: after its command, or unchanged where
    /// the bytes are no record.
    pub open spec fn apply_record(self, record: Seq<u8>) -> TableView {
        match parse(record) {
            Some(command) => self.apply(command),
            None => self,
        }
    }

    /// The buffer after a run of records, first to last.
    pub open spec fn apply_records(self, records: Seq<Seq<u8>>) -> TableView
        decreases records.len(),
    {
        if records.len() == 0 {
            self
        } else {
            self.apply_records(records.drop_last()).apply_record(records.last())
        }
    }
}

impl MemTable {
    /// Carries out the write that a record stands for.
    pub fn apply_record(&mut self, record: &[u8])
        requires
            old(self).wf(),
        ensures
            final(self).wf(),
            final(self)@ == old(self)@.apply_record(record@),
            final(self).settings() == old(self).settings(),
    {
        match decode(record) {
            Some(Operation::Put { key, value }) => self.put(key, value),
            Some(Operation::Delete { key }) => self.delete(key),
            None => {},
        }
    }
}

} // verus!
