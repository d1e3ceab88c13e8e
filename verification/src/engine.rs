//! The storage engine: writes go to the log and the in-memory table, which
//! is flushed into a new table with its filter when it grows past the
//! threshold; reads consult the in-memory table and then the tables on
//! disk, newest first, skipping those whose filter rules the key out.
//!
//! The engine holds the files of its data directory as byte images. A host
//! reads the directory into a [`Directory`] to open the engine, and writes
//! the images back to make the state durable.

use vstd::prelude::*;
use crate::bloom_filter::{BloomFilter, BloomFilterStats, BloomFilterView};
use crate::bytes::{copy_range, pairs_view, strings_view};
use crate::laws::{
    lemma_flush_keeps_answers, lemma_flush_sound, lemma_flush_wf, lemma_open_wf, lemma_put_then_get,
    lemma_stored_wf,
};
use crate::memtable::{byte_size, lemma_byte_size_upsert, lemma_byte_size_without, upsert, MemTable};
use crate::model::{
    admissions, flushed_table, loaded_table, ordered_tables, place_of, rebuilt_filter, rejections,
    replay, search, usable_filter, DirectoryView, LSMTreeView, OpenError, TableFileView, TableView,
};
use crate::record::write_pair;
use crate::sstable::{
    decode, encode, find, fits, keys_of, lemma_encode_push, lookup, read_entries, read_keys,
};
use crate::wal::{
    entries_view, lemma_decode_bounds, payload_len, WALEntry, WALEntryView, WALOp, WAL,
};

verus! {

/// One table on disk: its number and the image of its file.
pub struct SSTable {
    index: usize,
    data: Vec<u8>,
}

/// The files of one table as they stand in the data directory.
#[derive(Debug, Clone, PartialEq, Eq)]
pub struct TableFile {
    /// The number in the table's file name.
    pub index: usize,
    /// The image of the table file.
    pub data: Vec<u8>,
    /// The image of the companion filter file, where there is one.
    pub bloom: Option<Vec<u8>>,
}

impl View for TableFile {
    type V = TableFileView;

    open spec fn view(&self) -> TableFileView {
        TableFileView {
            index: self.index as nat,
            data: self.data@,
            bloom: match self.bloom {
                Some(image) => Some(image@),
                None => None,
            },
        }
    }
}

/// The data directory as the engine reads and leaves it: the image of the
/// log and the files of each table, in no particular order.
#[derive(Debug, Clone, PartialEq, Eq)]
pub struct Directory {
    /// The image of the log file; empty where there is none.
    pub wal: Vec<u8>,
    /// The table files found.
    pub tables: Vec<TableFile>,
}

impl View for Directory {
    type V = DirectoryView;

    open spec fn view(&self) -> DirectoryView {
        DirectoryView {
            wal: self.wal@,
            tables: Seq::new(self.tables@.len(), |i: int| self.tables@[i]@),
        }
    }
}

/// The tables that a vector of table images and a vector of filters stand
/// for, pair by pair.
pub closed spec fn tables_view(sstables: Seq<SSTable>, filters: Seq<BloomFilter>) -> Seq<
    TableView,
> {
    Seq::new(
        sstables.len(),
        |i: int|
            TableView {
                index: sstables[i].index as nat,
                data: sstables[i].data@,
                filter: filters[i]@,
            },
    )
}

/// The bytes that the bit arrays of the tables' filters take together.
pub open spec fn total_filter_bytes(tables: Seq<TableView>) -> nat
    decreases tables.len(),
{
    if tables.len() == 0 {
        0
    } else {
        total_filter_bytes(tables.drop_last()) + tables.last().filter.bits.len()
    }
}

/// The items inserted into the tables' filters together.
pub open spec fn total_filter_items(tables: Seq<TableView>) -> nat
    decreases tables.len(),
{
    if tables.len() == 0 {
        0
    } else {
        total_filter_items(tables.drop_last()) + tables.last().filter.num_items
    }
}

/// The totals over the first tables are no more than the totals over all.
proof fn lemma_totals_take(tables: Seq<TableView>, count: int)
    requires
        0 <= count <= tables.len(),
    ensures
        total_filter_bytes(tables.take(count)) <= total_filter_bytes(tables),
        total_filter_items(tables.take(count)) <= total_filter_items(tables),
    decreases tables.len() - count,
{
    if count < tables.len() {
        lemma_totals_take(tables, count + 1);
        assert(tables.take(count + 1).drop_last() =~= tables.take(count));
    } else {
        assert(tables.take(count) =~= tables);
    }
}

/// The bytes carried by the first operations are no more than the bytes
/// carried by all.
proof fn lemma_payload_take(entries: Seq<WALEntryView>, count: int)
    requires
        0 <= count <= entries.len(),
    ensures
        payload_len(entries.take(count)) <= payload_len(entries),
    decreases entries.len() - count,
{
    if count < entries.len() {
        lemma_payload_take(entries, count + 1);
        assert(entries.take(count + 1).drop_last() =~= entries.take(count));
    } else {
        assert(entries.take(count) =~= entries);
    }
}

/// The log-structured merge tree.
pub struct LSMTree {
    memtable: MemTable,
    memtable_size_threshold: usize,
    sstables: Vec<SSTable>,
    bloom_filters: Vec<BloomFilter>,
    sstable_counter: usize,
    wal: WAL,
    bloom_filter_negatives: usize,
    bloom_filter_positives: usize,
}

/// The counts of all filters together with the counters of filter checks.
#[derive(Debug, Clone)]
pub struct BloomFilterSummary {
    /// Number of filters, one for each table.
    pub num_filters: usize,
    /// Bytes that the bit arrays of all filters take.
    pub total_size_bytes: usize,
    /// Items inserted into all filters.
    pub total_items: usize,
    /// Filter checks that ruled a table out.
    pub checks_negative: usize,
    /// Filter checks that let a table be read.
    pub checks_positive: usize,
    /// The counts of each filter, newest table first.
    pub individual_stats: Vec<BloomFilterStats>,
}

impl BloomFilterSummary {
    /// Number of filter checks made, of either outcome.
    pub fn total_checks(&self) -> (total: usize)
        requires
            self.checks_negative + self.checks_positive <= usize::MAX,
        ensures
            total == self.checks_negative + self.checks_positive,
    {
        self.checks_negative + self.checks_positive
    }
}

impl View for LSMTree {
    type V = LSMTreeView;

    closed spec fn view(&self) -> LSMTreeView {
        LSMTreeView {
            memtable: self.memtable@,
            threshold: self.memtable_size_threshold as nat,
            tables: tables_view(self.sstables@, self.bloom_filters@),
            next_index: self.sstable_counter as nat,
            wal: self.wal@,
            negatives: self.bloom_filter_negatives as nat,
            positives: self.bloom_filter_positives as nat,
        }
    }
}

impl LSMTree {
    /// The engine is in order: there is one filter for each table, the
    /// in-memory table keeps its byte count, and the state is well formed.
    pub closed spec fn wf(&self) -> bool {
        &&& self.memtable.wf()
        &&& self.sstables@.len() == self.bloom_filters@.len()
        &&& self@.wf()
    }

    /// Opens the engine on a data directory. A threshold of zero is
    /// refused.
    ///
    /// The log is recovered and replayed into an empty in-memory table: a
    /// put sets its key, a delete removes it. A log that does not recover
    /// fails the opening with the log's error. The tables are ordered
    /// newest first, by descending number, and the next number is one more
    /// than the greatest. Each table gets its filter from the companion
    /// image; where there is none, or it does not parse, or it addresses
    /// no bit, the filter is rebuilt from the table's keys with the
    /// parameters `rebuild_params[i]` given for `dir.tables[i]`. The
    /// counters of filter checks start at zero.
    pub fn new(dir: Directory, memtable_size_threshold: usize, rebuild_params: &Vec<(usize, usize)>)
        -> (opened: Result<LSMTree, OpenError>)
        requires
            rebuild_params@.len() == dir@.tables.len(),
            forall|i: int| 0 <= i < dir@.tables.len() ==> (#[trigger] dir@.tables[i]).index
                < usize::MAX,
        ensures
            match opened {
                Ok(tree) => tree.wf() && LSMTreeView::open(
                    dir@,
                    memtable_size_threshold as nat,
                    rebuild_params@,
                ) == Ok::<LSMTreeView, OpenError>(tree@),
                Err(e) => LSMTreeView::open(dir@, memtable_size_threshold as nat, rebuild_params@)
                    == Err::<LSMTreeView, OpenError>(e),
            },
    {
        if memtable_size_threshold == 0 {
            return Err(OpenError::InvalidThreshold);
        }
        let ghost model = dir@;
        let Directory { wal: log, tables: files } = dir;
        assert(log@.len() == log.len() <= usize::MAX);
        let wal = WAL::new(log);
        let entries = match wal.recover() {
            Ok(entries) => entries,
            Err(e) => {
                return Err(OpenError::Log(e));
            },
        };
        proof {
            lemma_open_wf(model, memtable_size_threshold as nat, rebuild_params@);
        }
        proof {
            lemma_decode_bounds(wal@);
        }
        let memtable = LSMTree::replay_entries(&entries);
        assert(files@.len() == model.tables.len());
        assert forall|i: int| 0 <= i < files@.len() implies (#[trigger] files@[i]).index
            < usize::MAX by {
            assert(model.tables[i] == files@[i]@);
        }
        assert(Seq::new(files@.len(), |i: int| files@[i]@) =~= model.tables);
        let (sstables, bloom_filters, sstable_counter) = LSMTree::load_existing_sstables(
            files,
            rebuild_params,
        );
        let tree = LSMTree {
            memtable,
            memtable_size_threshold,
            sstables,
            bloom_filters,
            sstable_counter,
            wal,
            bloom_filter_negatives: 0,
            bloom_filter_positives: 0,
        };
        Ok(tree)
    }

    /// Replays recovered operations, in order, into an empty table.
    fn replay_entries(entries: &Vec<WALEntry>) -> (memtable: MemTable)
        requires
            forall|j: int|
                0 <= j < entries@.len() ==> (#[trigger] entries_view(entries@)[j]).key.len()
                    <= u32::MAX && entries_view(entries@)[j].value.len() <= u32::MAX,
            payload_len(entries_view(entries@)) <= usize::MAX,
        ensures
            memtable.wf(),
            memtable@ == replay(entries_view(entries@)),
    {
        let ghost ops = entries_view(entries@);
        let mut memtable = MemTable::new();
        let mut i: usize = 0;
        proof {
            assert(ops.take(0) =~= Seq::empty());
        }
        while i < entries.len()
            invariant
                i <= entries.len(),
                ops == entries_view(entries@),
                ops.len() == entries.len(),
                forall|j: int|
                    0 <= j < ops.len() ==> (#[trigger] ops[j]).key.len() <= u32::MAX
                        && ops[j].value.len() <= u32::MAX,
                payload_len(ops) <= usize::MAX,
                memtable.wf(),
                memtable@ == replay(ops.take(i as int)),
                byte_size(memtable@) <= payload_len(ops.take(i as int)),
            decreases entries.len() - i,
        {
            let entry = &entries[i];
            let ghost op = ops[i as int];
            assert(op == entry@);
            proof {
                assert(ops.take(i + 1).drop_last() =~= ops.take(i as int));
                assert(ops.take(i + 1).last() == op);
                lemma_payload_take(ops, i + 1);
                lemma_byte_size_upsert(memtable@, op.key, op.value);
                lemma_byte_size_without(memtable@, op.key);
            }
            match entry.op {
                WALOp::Put => {
                    let key = copy_range(entry.key.as_slice(), 0, entry.key.len());
                    let value = copy_range(entry.value.as_slice(), 0, entry.value.len());
                    assert(key@ =~= op.key);
                    assert(value@ =~= op.value);
                    memtable.insert(key, value);
                },
                WALOp::Delete => {
                    memtable.remove(entry.key.as_slice());
                },
            }
            i += 1;
        }
        assert(ops.take(i as int) =~= ops);
        memtable
    }

    /// Loads the tables of a data directory: orders them newest first,
    /// gives each its filter, and finds the number for the next table.
    fn load_existing_sstables(
        files: Vec<TableFile>,
        rebuild_params: &Vec<(usize, usize)>,
    ) -> (loaded: (Vec<SSTable>, Vec<BloomFilter>, usize))
        requires
            rebuild_params@.len() == files@.len(),
            forall|i: int| 0 <= i < files@.len() ==> (#[trigger] files@[i]).index < usize::MAX,
        ensures
            loaded.0@.len() == loaded.1@.len(),
            tables_view(loaded.0@, loaded.1@) == ordered_tables(
                Seq::new(files@.len(), |i: int| files@[i]@),
                rebuild_params@,
            ),
            loaded.2 == crate::model::next_after(tables_view(loaded.0@, loaded.1@)),
    {
        let ghost all = Seq::new(files@.len(), |i: int| files@[i]@);
        let ghost params = rebuild_params@;
        let mut files = files;
        let mut sstables: Vec<SSTable> = Vec::new();
        let mut bloom_filters: Vec<BloomFilter> = Vec::new();
        proof {
            assert(all.skip(all.len() as int) =~= Seq::empty());
            assert(tables_view(sstables@, bloom_filters@) =~= Seq::empty());
        }
        while files.len() > 0
            invariant
                files@.len() <= all.len(),
                params == rebuild_params@,
                params.len() == all.len(),
                forall|i: int| 0 <= i < files@.len() ==> (#[trigger] files@[i])@ == all[i],
                forall|i: int| 0 <= i < all.len() ==> (#[trigger] all[i]).index < usize::MAX,
                sstables@.len() == bloom_filters@.len(),
                tables_view(sstables@, bloom_filters@) == ordered_tables(
                    all.skip(files@.len() as int),
                    params.skip(files@.len() as int),
                ),
                forall|i: int| 0 <= i < sstables@.len() ==> (#[trigger] sstables@[i]).index
                    < usize::MAX,
            decreases files@.len(),
        {
            let ghost remaining = files@.len() as int;
            let ghost done = tables_view(sstables@, bloom_filters@);
            let file = files.pop().unwrap();
            let (num_bits, num_hashes) = rebuild_params[files.len()];
            let ghost at = remaining - 1;
            assert(file@ == all[at]);
            let index = file.index;
            let filter = match &file.bloom {
                Some(image) => match LSMTree::load_bloom_filter(image.as_slice()) {
                    Some(filter) => filter,
                    None => LSMTree::rebuild_bloom_filter(
                        file.data.as_slice(),
                        num_bits,
                        num_hashes,
                    ),
                },
                None => LSMTree::rebuild_bloom_filter(file.data.as_slice(), num_bits, num_hashes),
            };
            assert(filter@ == loaded_table(all[at], params[at]).filter);
            let mut place: usize = 0;
            assert(done.skip(0) =~= done);
            while place < sstables.len() && sstables[place].index > index
                invariant
                    place <= sstables@.len(),
                    sstables@.len() == bloom_filters@.len(),
                    done == tables_view(sstables@, bloom_filters@),
                    place_of(done, index as nat) == place + place_of(
                        done.skip(place as int),
                        index as nat,
                    ),
                decreases sstables@.len() - place,
            {
                assert(done.skip(place as int)[0] == done[place as int]);
                assert(done.skip(place as int).drop_first() =~= done.skip(place + 1));
                place += 1;
            }
            proof {
                if place < sstables@.len() {
                    assert(done.skip(place as int)[0] == done[place as int]);
                }
                assert(all.skip(at).drop_first() =~= all.skip(remaining));
                assert(params.skip(at).drop_first() =~= params.skip(remaining));
                assert(all.skip(at)[0] == all[at]);
                assert(params.skip(at)[0] == params[at]);
            }
            sstables.insert(place, SSTable { index, data: file.data });
            bloom_filters.insert(place, filter);
            assert(tables_view(sstables@, bloom_filters@) =~= done.insert(
                place as int,
                loaded_table(all[at], params[at]),
            ));
        }
        assert(all.skip(0) =~= all);
        assert(params.skip(0) =~= params);
        let counter = if sstables.len() > 0 {
            sstables[0].index + 1
        } else {
            0
        };
        (sstables, bloom_filters, counter)
    }

    /// Loads a filter from the image of its file. Returns `None` where the
    /// image does not parse or the filter addresses no bit, so that it
    /// cannot be used.
    pub fn load_bloom_filter(image: &[u8]) -> (filter: Option<BloomFilter>)
        ensures
            match filter {
                Some(f) => usable_filter(image@) == Some(f@) && f@.wf() && f@.num_bits > 0,
                None => usable_filter(image@).is_none(),
            },
    {
        match BloomFilter::from_bytes(image) {
            Some(filter) => if filter.num_bits() > 0 {
                Some(filter)
            } else {
                None
            },
            None => None,
        }
    }

    /// Rebuilds the filter of a table from the table's image: every key
    /// met in the image is inserted into a fresh filter created with
    /// `num_bits` and `num_hashes`.
    pub fn rebuild_bloom_filter(data: &[u8], num_bits: usize, num_hashes: usize) -> (filter:
        BloomFilter)
        ensures
            filter@ == rebuilt_filter(data@, num_bits as nat, num_hashes as nat),
            filter@.wf(),
            filter@.num_bits >= 8,
    {
        let keys = read_keys(data);
        let ghost all = strings_view(keys@);
        let ghost fresh = BloomFilterView::with_params(num_bits as nat, num_hashes as nat);
        let mut filter = BloomFilter::with_params(num_bits, num_hashes);
        let mut i: usize = 0;
        assert(all.take(0) =~= Seq::empty());
        while i < keys.len()
            invariant
                i <= keys.len(),
                all == strings_view(keys@),
                all.len() == keys.len(),
                fresh == BloomFilterView::with_params(num_bits as nat, num_hashes as nat),
                filter@ == fresh.with_keys(all.take(i as int)),
                filter@.wf(),
                filter@.num_bits >= 8,
                filter@.num_items == i,
            decreases keys.len() - i,
        {
            assert(all[i as int] == keys@[i as int]@);
            filter.insert(keys[i].as_slice());
            proof {
                assert(all.take(i + 1).drop_last() =~= all.take(i as int));
                assert(all.take(i + 1).last() == all[i as int]);
            }
            i += 1;
        }
        assert(all.take(i as int) =~= all);
        filter
    }

    /// Reads one key from a table image: the value of the first pair with
    /// that key, or `None` where the image holds none.
    pub fn read_from_sstable(data: &[u8], key: &[u8]) -> (value: Option<Vec<u8>>)
        ensures
            match value {
                Some(v) => find(decode(data@), key@) == Some(v@),
                None => find(decode(data@), key@).is_none(),
            },
    {
        lookup(data, key)
    }

    /// The data directory that holds the engine's state: the image of the
    /// log, and for each table, newest first, its number, its image and
    /// its serialized filter.
    pub fn directory(&self) -> (dir: Directory)
        requires
            self.wf(),
        ensures
            dir@ == self@.directory(),
    {
        let log = self.wal.as_bytes();
        let wal = copy_range(log, 0, log.len());
        assert(wal@ =~= self@.wal);
        let mut tables: Vec<TableFile> = Vec::new();
        let mut i: usize = 0;
        while i < self.sstables.len()
            invariant
                i <= self.sstables@.len(),
                self.wf(),
                tables@.len() == i,
                forall|j: int|
                    0 <= j < i ==> (#[trigger] tables@[j])@ == self@.directory().tables[j],
            decreases self.sstables@.len() - i,
        {
            let table = &self.sstables[i];
            let data = copy_range(table.data.as_slice(), 0, table.data.len());
            assert(data@ =~= table.data@);
            let bloom = self.bloom_filters[i].to_bytes();
            let file = TableFile { index: table.index, data, bloom: Some(bloom) };
            assert(file@ == self@.directory().tables[i as int]);
            tables.push(file);
            i += 1;
        }
        let dir = Directory { wal, tables };
        assert(dir@.tables =~= self@.directory().tables);
        dir
    }

    /// The counts of every filter, their totals, and the counters of
    /// filter checks.
    pub fn bloom_filter_stats(&self) -> (summary: BloomFilterSummary)
        requires
            self.wf(),
            forall|i: int|
                0 <= i < self@.tables.len() ==> (#[trigger] self@.tables[i]).filter.num_bits + 8
                    <= usize::MAX,
            total_filter_bytes(self@.tables) <= usize::MAX,
            total_filter_items(self@.tables) <= usize::MAX,
        ensures
            summary.num_filters == self@.tables.len(),
            summary.total_size_bytes == total_filter_bytes(self@.tables),
            summary.total_items == total_filter_items(self@.tables),
            summary.checks_negative == self@.negatives,
            summary.checks_positive == self@.positives,
            summary.individual_stats@.len() == self@.tables.len(),
            forall|i: int|
                0 <= i < self@.tables.len() ==> {
                    let stats = #[trigger] summary.individual_stats@[i];
                    let filter = self@.tables[i].filter;
                    &&& stats.num_bits == filter.num_bits
                    &&& stats.num_hashes == filter.num_hashes
                    &&& stats.num_items == filter.num_items
                    &&& stats.size_bytes == filter.bits.len()
                    &&& stats.bits_set == crate::bloom_filter::count_set(
                        filter.bits,
                        8 * filter.bits.len(),
                    )
                },
    {
        let ghost tables = self@.tables;
        let mut individual_stats: Vec<BloomFilterStats> = Vec::new();
        let mut total_size_bytes: usize = 0;
        let mut total_items: usize = 0;
        let mut i: usize = 0;
        assert(tables.take(0) =~= Seq::empty());
        while i < self.bloom_filters.len()
            invariant
                i <= self.bloom_filters@.len(),
                self.wf(),
                tables == self@.tables,
                tables.len() == self.bloom_filters@.len(),
                forall|j: int|
                    0 <= j < tables.len() ==> (#[trigger] tables[j]).filter.num_bits + 8
                        <= usize::MAX,
                total_filter_bytes(tables) <= usize::MAX,
                total_filter_items(tables) <= usize::MAX,
                total_size_bytes == total_filter_bytes(tables.take(i as int)),
                total_items == total_filter_items(tables.take(i as int)),
                individual_stats@.len() == i,
                forall|j: int|
                    0 <= j < i ==> {
                        let stats = #[trigger] individual_stats@[j];
                        let filter = tables[j].filter;
                        &&& stats.num_bits == filter.num_bits
                        &&& stats.num_hashes == filter.num_hashes
                        &&& stats.num_items == filter.num_items
                        &&& stats.size_bytes == filter.bits.len()
                        &&& stats.bits_set == crate::bloom_filter::count_set(
                            filter.bits,
                            8 * filter.bits.len(),
                        )
                    },
            decreases self.bloom_filters@.len() - i,
        {
            assert(tables[i as int].filter == self.bloom_filters@[i as int]@);
            proof {
                lemma_totals_take(tables, i + 1);
                assert(tables.take(i + 1).drop_last() =~= tables.take(i as int));
                assert(tables.take(i + 1).last() == tables[i as int]);
            }
            let stats = self.bloom_filters[i].stats();
            total_size_bytes += stats.size_bytes;
            total_items += stats.num_items;
            individual_stats.push(stats);
            i += 1;
        }
        assert(tables.take(i as int) =~= tables);
        BloomFilterSummary {
            num_filters: self.bloom_filters.len(),
            total_size_bytes,
            total_items,
            checks_negative: self.bloom_filter_negatives,
            checks_positive: self.bloom_filter_positives,
            individual_stats,
        }
    }

    /// Number of table images held.
    pub closed spec fn table_count(&self) -> nat {
        self.sstables@.len()
    }

    /// Number of filters held.
    pub closed spec fn filter_count(&self) -> nat {
        self.bloom_filters@.len()
    }

    /// Tables and filters go pair by pair: there are as many filters as
    /// tables, and the filter at each place is that of the table at the
    /// same place.
    pub proof fn lemma_filters_aligned(&self)
        requires
            self.wf(),
        ensures
            self.filter_count() == self.table_count(),
            self@.tables.len() == self.table_count(),
    {
    }

    /// The file names of the tables, newest first.
    pub fn sstable_paths(&self) -> (names: Vec<Vec<u8>>)
        ensures
            names@.len() == self@.tables.len(),
            forall|i: int|
                0 <= i < names@.len() ==> (#[trigger] names@[i])@ == crate::names::table_name(
                    self@.tables[i].index,
                ),
    {
        let mut names: Vec<Vec<u8>> = Vec::new();
        let mut i: usize = 0;
        while i < self.sstables.len()
            invariant
                i <= self.sstables@.len(),
                names@.len() == i,
                self@.tables.len() == self.sstables@.len(),
                forall|j: int|
                    0 <= j < i ==> (#[trigger] names@[j])@ == crate::names::table_name(
                        self@.tables[j].index,
                    ),
            decreases self.sstables@.len() - i,
        {
            names.push(crate::names::sstable_file_name(self.sstables[i].index));
            i += 1;
        }
        names
    }

    /// Sets `key` to `value`. The record is appended to the log first,
    /// then the in-memory table is changed; if it then holds at least the
    /// threshold in bytes it is flushed, and the new table's filter is
    /// created with `num_bits` and `num_hashes`.
    ///
    /// Afterwards the key reads as `value`, and every other key as before.
    pub fn put(&mut self, key: Vec<u8>, value: Vec<u8>, num_bits: usize, num_hashes: usize)
        requires
            old(self).wf(),
            key@.len() <= u32::MAX,
            value@.len() <= u32::MAX,
            byte_size(upsert(old(self)@.memtable, key@, value@)) <= usize::MAX,
            old(self)@.next_index < usize::MAX,
        ensures
            final(self).wf(),
            final(self)@ == old(self)@.put(key@, value@, num_bits as nat, num_hashes as nat),
            final(self)@.get(key@) == Some(value@),
            forall|other: Seq<u8>|
                other != key@ ==> final(self)@.get(other) == old(self)@.get(other),
            old(self)@.sound() ==> final(self)@.sound(),
    {
        let ghost before = self@;
        let ghost k = key@;
        let ghost v = value@;
        proof {
            lemma_stored_wf(before, k, v);
            assert forall|other: Seq<u8>| other != k implies before.put(
                k,
                v,
                num_bits as nat,
                num_hashes as nat,
            ).get(other) == before.get(other) by {
                lemma_put_then_get(before, k, v, num_bits as nat, num_hashes as nat, other);
            }
            lemma_put_then_get(before, k, v, num_bits as nat, num_hashes as nat, k);
            if before.sound() {
                assert(before.stored(k, v).sound());
                lemma_flush_sound(before.stored(k, v), num_bits as nat, num_hashes as nat);
            }
        }
        let flush_due = self.store(key, value);
        if flush_due {
            self.flush(num_bits, num_hashes);
        }
    }

    /// The first half of a put: appends the record to the log and sets
    /// the key in the in-memory table, without flushing. Returns whether a
    /// flush is due, that is, whether the in-memory table now holds at
    /// least the threshold in bytes.
    pub fn store(&mut self, key: Vec<u8>, value: Vec<u8>) -> (flush_due: bool)
        requires
            old(self).wf(),
            key@.len() <= u32::MAX,
            value@.len() <= u32::MAX,
            byte_size(upsert(old(self)@.memtable, key@, value@)) <= usize::MAX,
        ensures
            final(self).wf(),
            final(self)@ == old(self)@.stored(key@, value@),
            flush_due == (byte_size(final(self)@.memtable) >= final(self)@.threshold),
            final(self)@.get(key@) == Some(value@),
            forall|other: Seq<u8>|
                other != key@ ==> final(self)@.get(other) == old(self)@.get(other),
            old(self)@.sound() ==> final(self)@.sound(),
    {
        let ghost before = self@;
        proof {
            lemma_stored_wf(before, key@, value@);
            crate::memtable::lemma_upsert(before.memtable, key@, value@);
            if before.sound() {
                assert(before.stored(key@, value@).sound());
            }
        }
        self.wal.append_put(key.as_slice(), value.as_slice());
        self.memtable.insert(key, value);
        self.memtable.size() >= self.memtable_size_threshold
    }

    /// The files that a flush with these filter parameters would write:
    /// the next table's number, its image, and the image of its filter.
    /// `None` where the in-memory table is empty and a flush would write
    /// nothing. The engine is left as it is.
    pub fn pending_table(&self, num_bits: usize, num_hashes: usize) -> (pending: Option<TableFile>)
        requires
            self.wf(),
        ensures
            match pending {
                Some(file) => self@.memtable.len() > 0 && file@ == (TableFileView {
                    index: self@.next_index,
                    data: flushed_table(
                        self@.next_index,
                        self@.memtable,
                        num_bits as nat,
                        num_hashes as nat,
                    ).data,
                    bloom: Some(
                        flushed_table(
                            self@.next_index,
                            self@.memtable,
                            num_bits as nat,
                            num_hashes as nat,
                        ).filter.to_bytes(),
                    ),
                }),
                None => self@.memtable.len() == 0,
            },
    {
        if self.memtable.is_empty() {
            return None;
        }
        let (data, filter) = LSMTree::build_table(self.memtable.as_entries(), num_bits, num_hashes);
        Some(TableFile { index: self.sstable_counter, data, bloom: Some(filter.to_bytes()) })
    }

    /// Reads `key`: the value in the in-memory table if the key is there;
    /// else the value in the newest table on disk that holds the key and
    /// whose filter admits it. Each filter check is counted.
    pub fn get(&mut self, key: &[u8]) -> (value: Option<Vec<u8>>)
        requires
            old(self).wf(),
            old(self)@.negatives + old(self)@.tables.len() <= usize::MAX,
            old(self)@.positives + old(self)@.tables.len() <= usize::MAX,
        ensures
            final(self).wf(),
            final(self)@ == old(self)@.after_get(key@),
            match value {
                Some(v) => old(self)@.get(key@) == Some(v@),
                None => old(self)@.get(key@).is_none(),
            },
    {
        match self.memtable.get(key) {
            Some(value) => {
                let copy = copy_range(value.as_slice(), 0, value.len());
                assert(copy@ =~= value@);
                return Some(copy);
            },
            None => {},
        }
        let ghost before = self@;
        let ghost tables = self@.tables;
        let mut i: usize = 0;
        assert(tables.skip(0) =~= tables);
        while i < self.sstables.len()
            invariant
                i <= self.sstables@.len(),
                self.wf(),
                before == old(self)@,
                find(before.memtable, key@).is_none(),
                tables == self@.tables,
                tables.len() == self.sstables@.len(),
                self@ == (LSMTreeView {
                    negatives: self@.negatives,
                    positives: self@.positives,
                    ..before
                }),
                before.negatives + tables.len() <= usize::MAX,
                before.positives + tables.len() <= usize::MAX,
                self@.negatives + self@.positives <= before.negatives + before.positives + i,
                self@.negatives >= before.negatives,
                self@.positives >= before.positives,
                search(tables, key@) == search(tables.skip(i as int), key@),
                before.negatives + rejections(tables, key@) == self@.negatives + rejections(
                    tables.skip(i as int),
                    key@,
                ),
                before.positives + admissions(tables, key@) == self@.positives + admissions(
                    tables.skip(i as int),
                    key@,
                ),
            decreases self.sstables@.len() - i,
        {
            let ghost rest = tables.skip(i as int);
            assert(rest[0] == tables[i as int]);
            assert(rest.drop_first() =~= tables.skip(i + 1));
            if !self.bloom_filters[i].might_contain(key) {
                self.bloom_filter_negatives += 1;
                assert(self@.tables =~= tables);
            } else {
                self.bloom_filter_positives += 1;
                assert(self@.tables =~= tables);
                match lookup(self.sstables[i].data.as_slice(), key) {
                    Some(value) => {
                        return Some(value);
                    },
                    None => {},
                }
            }
            i += 1;
        }
        None
    }

    /// Reads `key` as [`LSMTree::get`] does, without counting the filter
    /// checks.
    pub fn get_immut(&self, key: &[u8]) -> (value: Option<Vec<u8>>)
        requires
            self.wf(),
        ensures
            match value {
                Some(v) => self@.get(key@) == Some(v@),
                None => self@.get(key@).is_none(),
            },
    {
        match self.memtable.get(key) {
            Some(value) => {
                let copy = copy_range(value.as_slice(), 0, value.len());
                assert(copy@ =~= value@);
                return Some(copy);
            },
            None => {},
        }
        let ghost tables = self@.tables;
        let mut i: usize = 0;
        assert(tables.skip(0) =~= tables);
        while i < self.sstables.len()
            invariant
                i <= self.sstables@.len(),
                self.wf(),
                find(self@.memtable, key@).is_none(),
                tables == self@.tables,
                tables.len() == self.sstables@.len(),
                search(tables, key@) == search(tables.skip(i as int), key@),
            decreases self.sstables@.len() - i,
        {
            let ghost rest = tables.skip(i as int);
            assert(rest[0] == tables[i as int]);
            assert(rest.drop_first() =~= tables.skip(i + 1));
            if self.bloom_filters[i].might_contain(key) {
                match lookup(self.sstables[i].data.as_slice(), key) {
                    Some(value) => {
                        return Some(value);
                    },
                    None => {},
                }
            }
            i += 1;
        }
        None
    }

    /// Flushes the in-memory table into a new table. Does nothing where
    /// the in-memory table is empty. Otherwise the entries are written in
    /// key order to a new table image under the next number, and every key
    /// is inserted into a new filter created with `num_bits` and
    /// `num_hashes`; table and filter are put in front of the others; then
    /// the in-memory table is emptied and the log truncated.
    ///
    /// No key reads differently afterwards.
    pub fn flush(&mut self, num_bits: usize, num_hashes: usize)
        requires
            old(self).wf(),
            old(self)@.next_index < usize::MAX,
        ensures
            final(self).wf(),
            final(self)@ == old(self)@.flush(num_bits as nat, num_hashes as nat),
            forall|key: Seq<u8>| final(self)@.get(key) == old(self)@.get(key),
            old(self)@.sound() ==> final(self)@.sound(),
    {
        let ghost before = self@;
        proof {
            lemma_flush_wf(before, num_bits as nat, num_hashes as nat);
            assert forall|key: Seq<u8>| before.flush(num_bits as nat, num_hashes as nat).get(key)
                == before.get(key) by {
                lemma_flush_keeps_answers(before, num_bits as nat, num_hashes as nat, key);
            }
            if before.sound() {
                lemma_flush_sound(before, num_bits as nat, num_hashes as nat);
            }
        }
        if self.memtable.is_empty() {
            return ;
        }
        let index = self.sstable_counter;
        self.sstable_counter += 1;
        let (data, filter) = LSMTree::build_table(self.memtable.as_entries(), num_bits, num_hashes);
        self.sstables.insert(0, SSTable { index, data });
        self.bloom_filters.insert(0, filter);
        self.memtable.clear();
        self.wal.clear();
        proof {
            let table = flushed_table(
                before.next_index,
                before.memtable,
                num_bits as nat,
                num_hashes as nat,
            );
            assert(self@.tables =~= seq![table] + before.tables);
        }
    }

    /// Writes entries to a table image and inserts their keys into a fresh
    /// filter, in one pass over the entries.
    fn build_table(entries: &Vec<(Vec<u8>, Vec<u8>)>, num_bits: usize, num_hashes: usize) -> (built:
        (Vec<u8>, BloomFilter))
        requires
            fits(pairs_view(entries@)),
        ensures
            built.0@ == encode(pairs_view(entries@)),
            built.1@ == BloomFilterView::with_params(num_bits as nat, num_hashes as nat).with_keys(
                keys_of(pairs_view(entries@)),
            ),
    {
        let ghost pairs = pairs_view(entries@);
        let ghost fresh = BloomFilterView::with_params(num_bits as nat, num_hashes as nat);
        let mut filter = BloomFilter::with_params(num_bits, num_hashes);
        let mut data: Vec<u8> = Vec::new();
        let mut i: usize = 0;
        assert(keys_of(pairs.take(0)) =~= Seq::empty());
        while i < entries.len()
            invariant
                i <= entries.len(),
                pairs == pairs_view(entries@),
                pairs.len() == entries.len(),
                fits(pairs),
                fresh == BloomFilterView::with_params(num_bits as nat, num_hashes as nat),
                data@ == encode(pairs.take(i as int)),
                filter@ == fresh.with_keys(keys_of(pairs.take(i as int))),
                filter@.wf(),
                filter@.num_bits > 0,
                filter@.num_items == i,
            decreases entries.len() - i,
        {
            let entry = &entries[i];
            assert(pairs[i as int] == (entry.0@, entry.1@));
            filter.insert(entry.0.as_slice());
            write_pair(&mut data, entry.0.as_slice(), entry.1.as_slice());
            proof {
                lemma_encode_push(pairs.take(i as int), pairs[i as int]);
                assert(pairs.take(i + 1) =~= pairs.take(i as int).push(pairs[i as int]));
                assert(keys_of(pairs.take(i + 1)).drop_last() =~= keys_of(pairs.take(i as int)));
                assert(keys_of(pairs.take(i + 1)).last() == entry.0@);
            }
            i += 1;
        }
        assert(pairs.take(i as int) =~= pairs);
        (data, filter)
    }

    /// Number of entries in the in-memory table.
    pub fn len(&self) -> (n: usize)
        ensures
            n == self@.memtable.len(),
    {
        self.memtable.len()
    }

    /// Whether the in-memory table holds `key`.
    pub fn memtable_contains(&self, key: &[u8]) -> (held: bool)
        requires
            self.wf(),
        ensures
            held == find(self@.memtable, key@).is_some(),
    {
        self.memtable.contains_key(key)
    }

    /// Whether the engine holds nothing: the in-memory table is empty and
    /// there is no table on disk.
    pub fn is_empty(&self) -> (empty: bool)
        ensures
            empty == (self@.memtable.len() == 0 && self@.tables.len() == 0),
    {
        self.memtable.is_empty() && self.sstables.len() == 0
    }

    /// Number of tables on disk.
    pub fn sstable_count(&self) -> (n: usize)
        ensures
            n == self@.tables.len(),
    {
        self.sstables.len()
    }

    /// The bytes that the keys and values of the in-memory table take.
    pub fn memtable_size(&self) -> (n: usize)
        requires
            self.wf(),
        ensures
            n == byte_size(self@.memtable),
    {
        self.memtable.size()
    }

    /// The size in bytes at which the in-memory table is flushed.
    pub fn memtable_threshold(&self) -> (n: usize)
        ensures
            n == self@.threshold,
    {
        self.memtable_size_threshold
    }

    /// The number that the next table gets.
    pub fn sstable_counter(&self) -> (n: usize)
        ensures
            n == self@.next_index,
    {
        self.sstable_counter
    }

    /// Number of table reads that the filters made unnecessary.
    pub fn bloom_filter_skipped_reads(&self) -> (n: usize)
        ensures
            n == self@.negatives,
    {
        self.bloom_filter_negatives
    }

    /// Number of table reads that the filters let through.
    pub fn bloom_filter_admitted_reads(&self) -> (n: usize)
        ensures
            n == self@.positives,
    {
        self.bloom_filter_positives
    }

    /// Sets the counters of filter checks to zero.
    pub fn reset_bloom_filter_stats(&mut self)
        requires
            old(self).wf(),
        ensures
            final(self).wf(),
            final(self)@ == old(self)@.reset_stats(),
    {
        self.bloom_filter_negatives = 0;
        self.bloom_filter_positives = 0;
        assert(self@.tables =~= old(self)@.tables);
    }

    /// The keys of the in-memory table, ascending.
    pub fn memtable_keys(&self) -> (keys: Vec<Vec<u8>>)
        ensures
            strings_view(keys@) == keys_of(self@.memtable),
    {
        self.memtable.keys()
    }

    /// The entries of the in-memory table, ascending by key.
    pub fn memtable_entries(&self) -> (entries: Vec<(Vec<u8>, Vec<u8>)>)
        ensures
            pairs_view(entries@) == self@.memtable,
    {
        self.memtable.entries()
    }

    /// The number in the file name of the table at `position`, newest
    /// first.
    pub fn sstable_index(&self, position: usize) -> (index: Option<usize>)
        ensures
            index == if position < self@.tables.len() {
                Some(self@.tables[position as int].index as usize)
            } else {
                None
            },
    {
        if position < self.sstables.len() {
            Some(self.sstables[position].index)
        } else {
            None
        }
    }

    /// The image of the table at `position`, newest first.
    pub fn sstable_data(&self, position: usize) -> (data: Option<&[u8]>)
        ensures
            match data {
                Some(bytes) => position < self@.tables.len() && bytes@
                    == self@.tables[position as int].data,
                None => position >= self@.tables.len(),
            },
    {
        if position < self.sstables.len() {
            Some(self.sstables[position].data.as_slice())
        } else {
            None
        }
    }

    /// The filter of the table at `position`, newest first.
    pub fn bloom_filter(&self, position: usize) -> (filter: Option<&BloomFilter>)
        requires
            self.wf(),
        ensures
            match filter {
                Some(f) => position < self@.tables.len() && f@
                    == self@.tables[position as int].filter,
                None => position >= self@.tables.len(),
            },
    {
        if position < self.bloom_filters.len() {
            Some(&self.bloom_filters[position])
        } else {
            None
        }
    }

    /// The image of the log.
    pub fn wal_bytes(&self) -> (image: &[u8])
        ensures
            image@ == self@.wal,
    {
        self.wal.as_bytes()
    }

    /// All entries of the table at `position`, newest first, in file
    /// order; `None` where there is no such table.
    pub fn read_sstable_entries(&self, position: usize) -> (entries: Option<
        Vec<(Vec<u8>, Vec<u8>)>,
    >)
        ensures
            match entries {
                Some(found) => position < self@.tables.len() && pairs_view(found@) == decode(
                    self@.tables[position as int].data,
                ),
                None => position >= self@.tables.len(),
            },
    {
        if position < self.sstables.len() {
            Some(read_entries(self.sstables[position].data.as_slice()))
        } else {
            None
        }
    }
}

} // verus!
