//! The mathematical model of the engine: what its state is, and what each
//! operation does to it, stated over byte sequences.
//!
//! The state is the in-memory table, the image of the log, and the tables
//! on disk, newest first, each with its number, its image and its filter.

use vstd::prelude::*;
use crate::bloom_filter::BloomFilterView;
use crate::memtable::{byte_size, sorted, upsert, without};
use crate::sstable::{decode, encode, find, fits, keys_of, scan_keys};
use crate::wal::{decode_log, record_bytes, WALEntryView, WALOp, WalError};

verus! {

/// One table on disk, with the filter that the engine holds for it.
pub struct TableView {
    /// The number in the table's file name.
    pub index: nat,
    /// The image of the table file.
    pub data: Seq<u8>,
    /// The filter consulted before the table is read.
    pub filter: BloomFilterView,
}

/// The files of one table as they stand in the data directory.
pub struct TableFileView {
    /// The number in the table's file name.
    pub index: nat,
    /// The image of the table file.
    pub data: Seq<u8>,
    /// The image of the companion filter file, where there is one.
    pub bloom: Option<Seq<u8>>,
}

/// The data directory: the log and the tables, in no particular order.
pub struct DirectoryView {
    /// The image of the log file; empty where there is none.
    pub wal: Seq<u8>,
    /// The table files found.
    pub tables: Seq<TableFileView>,
}

/// Why a data directory cannot be opened.
#[derive(Debug, Clone, Copy, PartialEq, Eq, Structural)]
pub enum OpenError {
    /// The flush threshold is zero.
    InvalidThreshold,
    /// The log does not recover.
    Log(WalError),
}

/// The state of the engine.
pub struct LSMTreeView {
    /// The entries of the in-memory table, ascending by key.
    pub memtable: Seq<(Seq<u8>, Seq<u8>)>,
    /// The size in bytes at which the in-memory table is flushed.
    pub threshold: nat,
    /// The tables on disk, newest first.
    pub tables: Seq<TableView>,
    /// The number that the next table gets.
    pub next_index: nat,
    /// The image of the log.
    pub wal: Seq<u8>,
    /// Filter checks that ruled a table out.
    pub negatives: nat,
    /// Filter checks that let a table be read.
    pub positives: nat,
}

/// The in-memory table after one logged operation is applied: a put sets
/// the key, a delete removes it if it is there.
pub open spec fn apply(memtable: Seq<(Seq<u8>, Seq<u8>)>, entry: WALEntryView) -> Seq<
    (Seq<u8>, Seq<u8>),
> {
    match entry.op {
        WALOp::Put => upsert(memtable, entry.key, entry.value),
        WALOp::Delete => without(memtable, entry.key),
    }
}

/// The in-memory table that logged operations build when applied in order
/// to an empty table.
pub open spec fn replay(entries: Seq<WALEntryView>) -> Seq<(Seq<u8>, Seq<u8>)>
    decreases entries.len(),
{
    if entries.len() == 0 {
        Seq::empty()
    } else {
        apply(replay(entries.drop_last()), entries.last())
    }
}

/// What a read finds in the tables on disk: they are consulted newest
/// first; a table whose filter rules the key out is skipped, one whose
/// filter admits it is read, and the first value found is the answer.
pub open spec fn search(tables: Seq<TableView>, key: Seq<u8>) -> Option<Seq<u8>>
    decreases tables.len(),
{
    if tables.len() == 0 {
        None
    } else if tables[0].filter.admits(key) && find(decode(tables[0].data), key).is_some() {
        find(decode(tables[0].data), key)
    } else {
        search(tables.drop_first(), key)
    }
}

/// What a read would find if every table were read, newest first, with no
/// filter consulted: the value in the newest table that holds the key.
pub open spec fn scan(tables: Seq<TableView>, key: Seq<u8>) -> Option<Seq<u8>>
    decreases tables.len(),
{
    if tables.len() == 0 {
        None
    } else if find(decode(tables[0].data), key).is_some() {
        find(decode(tables[0].data), key)
    } else {
        scan(tables.drop_first(), key)
    }
}

/// Number of tables that a read of `key` skips because their filter rules
/// the key out.
pub open spec fn rejections(tables: Seq<TableView>, key: Seq<u8>) -> nat
    decreases tables.len(),
{
    if tables.len() == 0 {
        0
    } else if !tables[0].filter.admits(key) {
        1 + rejections(tables.drop_first(), key)
    } else if find(decode(tables[0].data), key).is_some() {
        0
    } else {
        rejections(tables.drop_first(), key)
    }
}

/// Number of tables that a read of `key` reads because their filter admits
/// the key, the one that holds it included.
pub open spec fn admissions(tables: Seq<TableView>, key: Seq<u8>) -> nat
    decreases tables.len(),
{
    if tables.len() == 0 {
        0
    } else if !tables[0].filter.admits(key) {
        admissions(tables.drop_first(), key)
    } else if find(decode(tables[0].data), key).is_some() {
        1
    } else {
        1 + admissions(tables.drop_first(), key)
    }
}

/// Table numbers do not ascend: each table's number is at least that of
/// every table after it.
pub open spec fn descending(tables: Seq<TableView>) -> bool {
    forall|i: int, j: int|
        0 <= i < j < tables.len() ==> (#[trigger] tables[i]).index >= (#[trigger] tables[j]).index
}

/// The number for the next table: one more than the newest table's, or
/// zero where there is no table.
pub open spec fn next_after(tables: Seq<TableView>) -> nat {
    if tables.len() == 0 {
        0
    } else {
        tables[0].index + 1
    }
}

/// The table that a flush writes: the entries in key order, under a fresh
/// filter with the given parameters into which every key was inserted.
pub open spec fn flushed_table(
    index: nat,
    entries: Seq<(Seq<u8>, Seq<u8>)>,
    num_bits: nat,
    num_hashes: nat,
) -> TableView {
    TableView {
        index,
        data: encode(entries),
        filter: BloomFilterView::with_params(num_bits, num_hashes).with_keys(keys_of(entries)),
    }
}

/// The filter rebuilt for a table image: a fresh filter with the given
/// parameters into which every key met in the image was inserted.
pub open spec fn rebuilt_filter(data: Seq<u8>, num_bits: nat, num_hashes: nat) -> BloomFilterView {
    BloomFilterView::with_params(num_bits, num_hashes).with_keys(scan_keys(data))
}

/// The filter that a filter image gives for use, if any: the image must
/// parse and address at least one bit.
pub open spec fn usable_filter(image: Seq<u8>) -> Option<BloomFilterView> {
    match BloomFilterView::from_bytes(image) {
        Some(filter) => if filter.num_bits > 0 {
            Some(filter)
        } else {
            None
        },
        None => None,
    }
}

/// The table that opening makes of its files: the filter is loaded from
/// the companion image where that is usable, and rebuilt from the table's
/// keys with the given parameters where it is not.
pub open spec fn loaded_table(file: TableFileView, params: (usize, usize)) -> TableView {
    TableView {
        index: file.index,
        data: file.data,
        filter: match file.bloom {
            Some(image) => match usable_filter(image) {
                Some(filter) => filter,
                None => rebuilt_filter(file.data, params.0 as nat, params.1 as nat),
            },
            None => rebuilt_filter(file.data, params.0 as nat, params.1 as nat),
        },
    }
}

/// The tables that opening makes of the files, one for each file, in the
/// order of the files.
pub open spec fn loaded_tables(files: Seq<TableFileView>, params: Seq<(usize, usize)>) -> Seq<
    TableView,
> {
    Seq::new(files.len(), |i: int| loaded_table(files[i], params[i]))
}

/// Number of leading tables whose number is greater than `index`: the
/// place where a table with that number goes in descending order, in
/// front of those with the same number.
pub open spec fn place_of(tables: Seq<TableView>, index: nat) -> nat
    decreases tables.len(),
{
    if tables.len() == 0 || tables[0].index <= index {
        0
    } else {
        1 + place_of(tables.drop_first(), index)
    }
}

/// The tables loaded from their files and ordered newest first. Files
/// with the same number keep the order in which they were given.
pub open spec fn ordered_tables(files: Seq<TableFileView>, params: Seq<(usize, usize)>) -> Seq<
    TableView,
>
    decreases files.len(),
{
    if files.len() == 0 {
        Seq::empty()
    } else {
        let rest = ordered_tables(files.drop_first(), params.drop_first());
        rest.insert(place_of(rest, files[0].index) as int, loaded_table(files[0], params[0]))
    }
}

impl LSMTreeView {
    /// What the state must satisfy at every point between operations.
    ///
    /// The in-memory table ascends by key and every key and value fits a
    /// 32-bit length field; the log recovers, and replaying it gives the
    /// in-memory table; every filter has the bytes its bits need and
    /// addresses at least one bit; the tables stand newest first, and the
    /// next number is one more than the newest table's; the threshold is
    /// not zero.
    pub open spec fn wf(self) -> bool {
        &&& sorted(self.memtable)
        &&& fits(self.memtable)
        &&& decode_log(self.wal).is_ok()
        &&& replay(decode_log(self.wal).unwrap()) == self.memtable
        &&& forall|i: int|
            0 <= i < self.tables.len() ==> (#[trigger] self.tables[i]).filter.wf()
                && self.tables[i].filter.num_bits > 0
        &&& descending(self.tables)
        &&& self.next_index == next_after(self.tables)
        &&& self.threshold > 0
    }

    /// Every filter admits every key that its table holds, so no read
    /// skips a table that has the key.
    pub open spec fn sound(self) -> bool {
        forall|i: int, key: Seq<u8>|
            0 <= i < self.tables.len() && find(
                decode((#[trigger] self.tables[i]).data),
                key,
            ).is_some() ==> #[trigger] self.tables[i].filter.admits(key)
    }

    /// What a read of `key` returns: the value in the in-memory table if
    /// the key is there, else what the tables on disk give.
    pub open spec fn get(self, key: Seq<u8>) -> Option<Seq<u8>> {
        match find(self.memtable, key) {
            Some(value) => Some(value),
            None => search(self.tables, key),
        }
    }

    /// What a read of `key` would return if no filter were consulted.
    pub open spec fn get_unfiltered(self, key: Seq<u8>) -> Option<Seq<u8>> {
        match find(self.memtable, key) {
            Some(value) => Some(value),
            None => scan(self.tables, key),
        }
    }

    /// The state after a read of `key`: only the counters of filter checks
    /// move, and only where the in-memory table does not hold the key.
    pub open spec fn after_get(self, key: Seq<u8>) -> LSMTreeView {
        if find(self.memtable, key).is_some() {
            self
        } else {
            LSMTreeView {
                negatives: self.negatives + rejections(self.tables, key),
                positives: self.positives + admissions(self.tables, key),
                ..self
            }
        }
    }

    /// The state after a flush. An empty in-memory table leaves the state
    /// as it is. Otherwise its entries become the newest table, under the
    /// next number and a filter with the given parameters; the in-memory
    /// table and the log are emptied.
    pub open spec fn flush(self, num_bits: nat, num_hashes: nat) -> LSMTreeView {
        if self.memtable.len() == 0 {
            self
        } else {
            LSMTreeView {
                memtable: Seq::empty(),
                tables: seq![
                    flushed_table(self.next_index, self.memtable, num_bits, num_hashes),
                ] + self.tables,
                next_index: self.next_index + 1,
                wal: Seq::empty(),
                ..self
            }
        }
    }

    /// The state after the put is logged and applied to the in-memory
    /// table, before any flush.
    pub open spec fn stored(self, key: Seq<u8>, value: Seq<u8>) -> LSMTreeView {
        LSMTreeView {
            memtable: upsert(self.memtable, key, value),
            wal: self.wal + record_bytes(WALEntryView { op: WALOp::Put, key, value }),
            ..self
        }
    }

    /// The state after a put: the record is appended to the log, the key
    /// is set in the in-memory table, and if the table then holds at least
    /// `threshold` bytes it is flushed under the given filter parameters.
    pub open spec fn put(self, key: Seq<u8>, value: Seq<u8>, num_bits: nat, num_hashes: nat)
        -> LSMTreeView {
        let stored = self.stored(key, value);
        if byte_size(stored.memtable) >= self.threshold {
            stored.flush(num_bits, num_hashes)
        } else {
            stored
        }
    }

    /// The state with the counters of filter checks set to zero.
    pub open spec fn reset_stats(self) -> LSMTreeView {
        LSMTreeView { negatives: 0, positives: 0, ..self }
    }

    /// The data directory that holds this state: the log image, and for
    /// each table its image and the serialized filter.
    pub open spec fn directory(self) -> DirectoryView {
        DirectoryView {
            wal: self.wal,
            tables: Seq::new(
                self.tables.len(),
                |i: int|
                    TableFileView {
                        index: self.tables[i].index,
                        data: self.tables[i].data,
                        bloom: Some(self.tables[i].filter.to_bytes()),
                    },
            ),
        }
    }

    /// The state that opening a data directory gives, or the reason why
    /// it cannot be opened: a threshold of zero is refused, and so is a
    /// log that does not recover. The in-memory table is the replay of the
    /// log; the tables are loaded and ordered newest first; `params[i]`
    /// are the filter parameters for rebuilding the filter of
    /// `dir.tables[i]`, should its companion image not be usable.
    pub open spec fn open(dir: DirectoryView, threshold: nat, params: Seq<(usize, usize)>)
        -> Result<LSMTreeView, OpenError> {
        if threshold == 0 {
            Err(OpenError::InvalidThreshold)
        } else {
            Self::recovered(dir, threshold, params)
        }
    }

    /// What opening gives once the threshold is accepted.
    pub open spec fn recovered(dir: DirectoryView, threshold: nat, params: Seq<(usize, usize)>)
        -> Result<LSMTreeView, OpenError> {
        match decode_log(dir.wal) {
            Err(e) => Err(OpenError::Log(e)),
            Ok(entries) => Ok(
                LSMTreeView {
                    memtable: replay(entries),
                    threshold,
                    tables: ordered_tables(dir.tables, params),
                    next_index: next_after(ordered_tables(dir.tables, params)),
                    wal: dir.wal,
                    negatives: 0,
                    positives: 0,
                },
            ),
        }
    }
}

} // verus!
