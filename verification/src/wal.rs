//! The write-ahead log: an append-only journal of the operations that no
//! table holds yet. Each record is one operation byte followed by a
//! length-prefixed key and a length-prefixed value.
//!
//! The log is kept as the image of its file. Appending extends the image,
//! recovery parses it from the front, and clearing empties it.

use vstd::prelude::*;
use crate::bytes::extend_bytes;
use crate::record::{
    lemma_pair_at_extend, lemma_pair_at_len, lemma_pair_round_trip, pair_at, pair_bytes, read_pair,
    write_pair,
};

verus! {

/// The operation byte of a put record.
pub const OP_PUT: u8 = 1;

/// The operation byte of a delete record.
pub const OP_DELETE: u8 = 2;

/// The kinds of operation the log records.
#[derive(Debug, Clone, Copy, PartialEq, Eq, Structural)]
pub enum WALOp {
    /// Insert or overwrite a key.
    Put,
    /// Remove a key.
    Delete,
}

/// One logged operation.
#[derive(Debug, Clone, PartialEq)]
pub struct WALEntry {
    /// The kind of operation.
    pub op: WALOp,
    /// The key operated on.
    pub key: Vec<u8>,
    /// The value written; empty for a delete.
    pub value: Vec<u8>,
}

/// The mathematical content of a logged operation.
pub struct WALEntryView {
    /// The kind of operation.
    pub op: WALOp,
    /// The key operated on.
    pub key: Seq<u8>,
    /// The value written; empty for a delete.
    pub value: Seq<u8>,
}

impl View for WALEntry {
    type V = WALEntryView;

    open spec fn view(&self) -> WALEntryView {
        WALEntryView { op: self.op, key: self.key@, value: self.value@ }
    }
}

/// Why a log image cannot be recovered.
#[derive(Debug, Clone, Copy, PartialEq, Eq, Structural)]
pub enum WalError {
    /// A record starts with a byte that names no operation.
    InvalidOp(u8),
    /// The image ends inside a record.
    UnexpectedEof,
}

/// The byte that stands for an operation in the log.
pub open spec fn op_code(op: WALOp) -> u8 {
    match op {
        WALOp::Put => OP_PUT,
        WALOp::Delete => OP_DELETE,
    }
}

/// The operation a byte stands for, if any.
pub open spec fn op_of(code: u8) -> Option<WALOp> {
    if code == OP_PUT {
        Some(WALOp::Put)
    } else if code == OP_DELETE {
        Some(WALOp::Delete)
    } else {
        None
    }
}

/// The bytes of one record.
pub open spec fn record_bytes(entry: WALEntryView) -> Seq<u8> {
    seq![op_code(entry.op)] + pair_bytes(entry.key, entry.value)
}

/// The operations held by a sequence of log entries.
pub open spec fn entries_view(v: Seq<WALEntry>) -> Seq<WALEntryView> {
    Seq::new(v.len(), |i: int| v[i]@)
}

/// The operations recorded in a log image, in the order they were
/// appended. The end of the image between two records ends the log. An
/// unknown operation byte, or an image that ends inside a record, is
/// corruption: the whole recovery fails with the first such error.
pub open spec fn decode_log(s: Seq<u8>) -> Result<Seq<WALEntryView>, WalError>
    decreases s.len(),
    via decode_log_decreases
{
    if s.len() == 0 {
        Ok(Seq::empty())
    } else {
        match op_of(s[0]) {
            None => Err(WalError::InvalidOp(s[0])),
            Some(op) => match pair_at(s.skip(1)) {
                None => Err(WalError::UnexpectedEof),
                Some((key, value, n)) => prepend(
                    seq![WALEntryView { op, key, value }],
                    decode_log(s.skip(1).skip(n as int)),
                ),
            },
        }
    }
}

#[via_fn]
proof fn decode_log_decreases(s: Seq<u8>) {
    if s.len() > 0 && pair_at(s.skip(1)).is_some() {
        lemma_pair_at_len(s.skip(1));
    }
}

/// The entries `done` followed by what the rest of a log holds, or the
/// error the rest fails with.
pub open spec fn prepend(
    done: Seq<WALEntryView>,
    rest: Result<Seq<WALEntryView>, WalError>,
) -> Result<Seq<WALEntryView>, WalError> {
    match rest {
        Ok(entries) => Ok(done + entries),
        Err(e) => Err(e),
    }
}

/// The bytes of key and value that a sequence of operations carries.
pub open spec fn payload_len(entries: Seq<WALEntryView>) -> nat
    decreases entries.len(),
{
    if entries.len() == 0 {
        0
    } else {
        payload_len(entries.drop_last()) + entries.last().key.len() + entries.last().value.len()
    }
}

/// The image of a log that holds `entries` in this order.
pub open spec fn encode_log(entries: Seq<WALEntryView>) -> Seq<u8>
    decreases entries.len(),
{
    if entries.len() == 0 {
        Seq::empty()
    } else {
        encode_log(entries.drop_last()) + record_bytes(entries.last())
    }
}

/// A record appended to a log that recovers is recovered after all the
/// operations that were there, and they are recovered as before.
pub proof fn lemma_decode_append(s: Seq<u8>, entry: WALEntryView)
    requires
        decode_log(s).is_ok(),
        entry.key.len() <= u32::MAX,
        entry.value.len() <= u32::MAX,
    ensures
        decode_log(s + record_bytes(entry)) == Ok::<Seq<WALEntryView>, WalError>(
            decode_log(s).unwrap().push(entry),
        ),
    decreases s.len(),
{
    let record = record_bytes(entry);
    let whole = s + record;
    if s.len() == 0 {
        assert(whole =~= record);
        assert(whole.skip(1) =~= pair_bytes(entry.key, entry.value) + Seq::<u8>::empty());
        lemma_pair_round_trip(entry.key, entry.value, Seq::empty());
        let n = 8 + entry.key.len() + entry.value.len();
        assert(whole[0] == op_code(entry.op));
        assert(op_of(whole[0]) == Some(entry.op));
        assert(pair_at(whole.skip(1)) == Some((entry.key, entry.value, n as nat)));
        assert(whole.skip(1).skip(n as int).len() == 0);
        assert(decode_log(whole.skip(1).skip(n as int)) == Ok::<Seq<WALEntryView>, WalError>(
            Seq::empty(),
        ));
        assert(decode_log(s) == Ok::<Seq<WALEntryView>, WalError>(Seq::empty()));
        assert(seq![entry] + Seq::<WALEntryView>::empty() =~= Seq::<WALEntryView>::empty().push(
            entry,
        ));
    } else {
        let op = op_of(s[0]).unwrap();
        let (key, value, n) = pair_at(s.skip(1)).unwrap();
        lemma_pair_at_len(s.skip(1));
        lemma_pair_at_extend(s.skip(1), record);
        assert(whole.skip(1) =~= s.skip(1) + record);
        let rest = s.skip(1).skip(n as int);
        assert(whole[0] == s[0]);
        assert(whole.skip(1).skip(n as int) =~= rest + record);
        assert(decode_log(rest).is_ok());
        lemma_decode_append(rest, entry);
        let first = seq![WALEntryView { op, key, value }];
        assert(first + decode_log(rest).unwrap().push(entry) =~= (first + decode_log(
            rest,
        ).unwrap()).push(entry));
    }
}

/// Writing operations to a log and recovering it gives exactly the
/// operations written, in order. The log of no operations is the empty
/// image, and the empty image recovers to no operations.
pub proof fn lemma_log_round_trip(entries: Seq<WALEntryView>)
    requires
        forall|i: int|
            0 <= i < entries.len() ==> (#[trigger] entries[i]).key.len() <= u32::MAX
                && entries[i].value.len() <= u32::MAX,
    ensures
        decode_log(encode_log(entries)) == Ok::<Seq<WALEntryView>, WalError>(entries),
    decreases entries.len(),
{
    if entries.len() > 0 {
        let front = entries.drop_last();
        assert forall|i: int| 0 <= i < front.len() implies (#[trigger] front[i]).key.len()
            <= u32::MAX && front[i].value.len() <= u32::MAX by {
            assert(front[i] == entries[i]);
        }
        lemma_log_round_trip(front);
        assert(entries.last() == entries[entries.len() - 1]);
        lemma_decode_append(encode_log(front), entries.last());
        assert(entries.drop_last().push(entries.last()) =~= entries);
    } else {
        assert(entries =~= Seq::<WALEntryView>::empty());
    }
}

/// The operations of a log that recovers carry no more bytes than the
/// image holds, and every key and value is short enough for its length
/// field.
pub proof fn lemma_decode_bounds(s: Seq<u8>)
    requires
        decode_log(s).is_ok(),
    ensures
        payload_len(decode_log(s).unwrap()) <= s.len(),
        forall|i: int|
            0 <= i < decode_log(s).unwrap().len() ==> (#[trigger] decode_log(
                s,
            ).unwrap()[i]).key.len() <= u32::MAX && decode_log(s).unwrap()[i].value.len()
                <= u32::MAX,
    decreases s.len(),
{
    if s.len() > 0 {
        let op = op_of(s[0]).unwrap();
        let (key, value, n) = pair_at(s.skip(1)).unwrap();
        lemma_pair_at_len(s.skip(1));
        let rest = s.skip(1).skip(n as int);
        lemma_decode_bounds(rest);
        let first = WALEntryView { op, key, value };
        let tail = decode_log(rest).unwrap();
        lemma_payload_prepend(first, tail);
        let all = decode_log(s).unwrap();
        assert(all =~= seq![first] + tail);
        assert forall|i: int| 0 <= i < all.len() implies (#[trigger] all[i]).key.len() <= u32::MAX
            && all[i].value.len() <= u32::MAX by {
            if i > 0 {
                assert(all[i] == tail[i - 1]);
            }
        }
    }
}

/// An operation put in front adds its own bytes to the payload.
proof fn lemma_payload_prepend(first: WALEntryView, tail: Seq<WALEntryView>)
    ensures
        payload_len(seq![first] + tail) == first.key.len() + first.value.len() + payload_len(tail),
    decreases tail.len(),
{
    let all = seq![first] + tail;
    if tail.len() == 0 {
        assert(all.drop_last() =~= Seq::<WALEntryView>::empty());
        assert(all.last() == first);
        assert(payload_len(all.drop_last()) == 0);
        assert(payload_len(tail) == 0);
    } else {
        lemma_payload_prepend(first, tail.drop_last());
        assert(all.drop_last() =~= seq![first] + tail.drop_last());
        assert(all.last() == tail.last());
    }
}

impl WALOp {
    /// The byte that stands for this operation in the log.
    pub fn code(self) -> (code: u8)
        ensures
            code == op_code(self),
    {
        match self {
            WALOp::Put => OP_PUT,
            WALOp::Delete => OP_DELETE,
        }
    }

    /// The operation a byte stands for, if any.
    pub fn from_code(code: u8) -> (op: Option<WALOp>)
        ensures
            op == op_of(code),
    {
        if code == OP_PUT {
            Some(WALOp::Put)
        } else if code == OP_DELETE {
            Some(WALOp::Delete)
        } else {
            None
        }
    }
}

/// The write-ahead log, held as the image of its file.
pub struct WAL {
    log: Vec<u8>,
}

impl View for WAL {
    type V = Seq<u8>;

    closed spec fn view(&self) -> Seq<u8> {
        self.log@
    }
}

impl WAL {
    /// Opens a log on the image of its file. What the image holds is kept;
    /// a log that does not exist yet has the empty image.
    pub fn new(contents: Vec<u8>) -> (wal: Self)
        ensures
            wal@ == contents@,
    {
        WAL { log: contents }
    }

    /// The bytes of one record, as they are appended to the log.
    pub fn encode_entry(op: WALOp, key: &[u8], value: &[u8]) -> (record: Vec<u8>)
        requires
            key@.len() <= u32::MAX,
            value@.len() <= u32::MAX,
        ensures
            record@ == record_bytes(WALEntryView { op, key: key@, value: value@ }),
    {
        let mut record: Vec<u8> = Vec::new();
        record.push(op.code());
        write_pair(&mut record, key, value);
        assert(record@ =~= record_bytes(WALEntryView { op, key: key@, value: value@ }));
        record
    }

    /// Appends a put record.
    pub fn append_put(&mut self, key: &[u8], value: &[u8])
        requires
            key@.len() <= u32::MAX,
            value@.len() <= u32::MAX,
        ensures
            final(self)@ == old(self)@ + record_bytes(
                WALEntryView { op: WALOp::Put, key: key@, value: value@ },
            ),
    {
        self.append_entry(WALOp::Put, key, value)
    }

    /// Appends a delete record, whose value is empty.
    pub fn append_delete(&mut self, key: &[u8])
        requires
            key@.len() <= u32::MAX,
        ensures
            final(self)@ == old(self)@ + record_bytes(
                WALEntryView { op: WALOp::Delete, key: key@, value: Seq::empty() },
            ),
    {
        let value: Vec<u8> = Vec::new();
        self.append_entry(WALOp::Delete, key, value.as_slice())
    }

    /// Appends one record: the operation byte, then key and value, each
    /// behind its length.
    fn append_entry(&mut self, op: WALOp, key: &[u8], value: &[u8])
        requires
            key@.len() <= u32::MAX,
            value@.len() <= u32::MAX,
        ensures
            final(self)@ == old(self)@ + record_bytes(
                WALEntryView { op, key: key@, value: value@ },
            ),
    {
        let record = WAL::encode_entry(op, key, value);
        extend_bytes(&mut self.log, record.as_slice());
    }

    /// Recovers the logged operations, in the order they were appended.
    /// Fails on the first record that is corrupt: one that starts with an
    /// unknown operation byte, or one that the end of the image cuts short.
    pub fn recover(&self) -> (recovered: Result<Vec<WALEntry>, WalError>)
        ensures
            match recovered {
                Ok(entries) => decode_log(self@) == Ok::<Seq<WALEntryView>, WalError>(
                    entries_view(entries@),
                ),
                Err(e) => decode_log(self@) == Err::<Seq<WALEntryView>, WalError>(e),
            },
    {
        let data = self.log.as_slice();
        let mut entries: Vec<WALEntry> = Vec::new();
        let mut pos: usize = 0;
        assert(data@.skip(0) =~= data@);
        assert(Seq::<WALEntryView>::empty() + decode_log(data@).unwrap() =~= decode_log(
            data@,
        ).unwrap());
        assert(entries_view(entries@) =~= Seq::empty());
        while pos < data.len()
            invariant
                pos <= data@.len(),
                data@ == self@,
                decode_log(data@) == prepend(
                    entries_view(entries@),
                    decode_log(data@.skip(pos as int)),
                ),
            decreases data@.len() - pos,
        {
            let ghost tail = data@.skip(pos as int);
            let ghost before = entries_view(entries@);
            let code = data[pos];
            assert(tail[0] == code);
            let op = match WALOp::from_code(code) {
                Some(op) => op,
                None => {
                    return Err(WalError::InvalidOp(code));
                },
            };
            assert(tail.skip(1) =~= data@.skip(pos + 1));
            match read_pair(data, pos + 1) {
                None => {
                    return Err(WalError::UnexpectedEof);
                },
                Some((key, value, next)) => {
                    let ghost entry = WALEntryView { op, key: key@, value: value@ };
                    proof {
                        lemma_pair_at_len(tail.skip(1));
                        assert(tail.skip(1).skip(next - pos - 1) =~= data@.skip(next as int));
                    }
                    entries.push(WALEntry { op, key, value });
                    proof {
                        assert(entries_view(entries@) =~= before.push(entry));
                        let rest = decode_log(data@.skip(next as int));
                        if rest.is_ok() {
                            assert(before + (seq![entry] + rest.unwrap()) =~= before.push(entry)
                                + rest.unwrap());
                        }
                    }
                    pos = next;
                },
            }
        }
        assert(entries_view(entries@) + Seq::<WALEntryView>::empty() =~= entries_view(entries@));
        Ok(entries)
    }

    /// Truncates the log. Recovery then finds no operation.
    pub fn clear(&mut self)
        ensures
            final(self)@ == Seq::<u8>::empty(),
            decode_log(final(self)@) == Ok::<Seq<WALEntryView>, WalError>(Seq::empty()),
    {
        self.log.clear();
    }

    /// The image of the log file.
    pub fn as_bytes(&self) -> (image: &[u8])
        ensures
            image@ == self@,
    {
        self.log.as_slice()
    }

    /// Length of the image in bytes.
    pub fn len(&self) -> (n: usize)
        ensures
            n == self@.len(),
    {
        self.log.len()
    }
}

} // verus!
