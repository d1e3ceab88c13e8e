//! What holds of the engine as a whole: operations keep the state well
//! formed, a write is read back, a flush changes no answer, and what was
//! written is found again when the data directory is opened anew.

use vstd::prelude::*;
use crate::bloom_filter::{
    lemma_serialization_round_trip, lemma_with_keys_admits, lemma_with_keys_wf, BloomFilterView,
};
use crate::memtable::{
    byte_size, lemma_byte_size_upsert, lemma_byte_size_without, lemma_upsert, lemma_without,
    present, rank, sorted, upsert, without,
};
use crate::model::{
    apply, descending, flushed_table, loaded_table, loaded_tables, ordered_tables, place_of,
    rebuilt_filter, replay, scan, search, usable_filter, DirectoryView, LSMTreeView, OpenError,
    TableFileView, TableView,
};
use crate::sstable::{decode, find, fits, keys_of, lemma_find, lemma_round_trip, scan_keys};
use crate::wal::{
    decode_log, lemma_decode_append, lemma_decode_bounds, payload_len, WALEntryView, WALOp,
    WalError,
};

verus! {

/// Setting a key in a table whose keys and values fit their length fields
/// gives such a table again, if the new key and value fit.
pub proof fn lemma_upsert_fits(entries: Seq<(Seq<u8>, Seq<u8>)>, key: Seq<u8>, value: Seq<u8>)
    requires
        fits(entries),
        key.len() <= u32::MAX,
        value.len() <= u32::MAX,
    ensures
        fits(upsert(entries, key, value)),
{
    let r = rank(entries, key) as int;
    let next = upsert(entries, key, value);
    crate::memtable::lemma_rank(entries, key);
    assert forall|i: int| 0 <= i < next.len() implies (#[trigger] next[i]).0.len() <= u32::MAX
        && next[i].1.len() <= u32::MAX by {
        if i != r {
            let oi = if present(entries, key) || i < r { i } else { i - 1 };
            assert(next[i] == entries[oi]);
        }
    }
}

/// Removing a key from a table whose keys and values fit their length
/// fields gives such a table again.
pub proof fn lemma_without_fits(entries: Seq<(Seq<u8>, Seq<u8>)>, key: Seq<u8>)
    requires
        fits(entries),
    ensures
        fits(without(entries, key)),
{
    let r = rank(entries, key) as int;
    let next = without(entries, key);
    crate::memtable::lemma_rank(entries, key);
    assert forall|i: int| 0 <= i < next.len() implies (#[trigger] next[i]).0.len() <= u32::MAX
        && next[i].1.len() <= u32::MAX by {
        let oi = if present(entries, key) && i >= r { i + 1 } else { i };
        assert(next[i] == entries[oi]);
    }
}

/// Replaying operations whose keys and values fit their length fields
/// gives a table in key order whose keys and values fit, and which holds
/// no more bytes than the operations carry.
pub proof fn lemma_replay(entries: Seq<WALEntryView>)
    requires
        forall|i: int|
            0 <= i < entries.len() ==> (#[trigger] entries[i]).key.len() <= u32::MAX
                && entries[i].value.len() <= u32::MAX,
    ensures
        sorted(replay(entries)),
        fits(replay(entries)),
        byte_size(replay(entries)) <= payload_len(entries),
    decreases entries.len(),
{
    if entries.len() > 0 {
        let front = entries.drop_last();
        let last = entries.last();
        assert forall|i: int| 0 <= i < front.len() implies (#[trigger] front[i]).key.len()
            <= u32::MAX && front[i].value.len() <= u32::MAX by {
            assert(front[i] == entries[i]);
        }
        lemma_replay(front);
        assert(last == entries[entries.len() - 1]);
        let before = replay(front);
        match last.op {
            WALOp::Put => {
                lemma_upsert(before, last.key, last.value);
                lemma_upsert_fits(before, last.key, last.value);
                lemma_byte_size_upsert(before, last.key, last.value);
            },
            WALOp::Delete => {
                lemma_without(before, last.key);
                lemma_without_fits(before, last.key);
                lemma_byte_size_without(before, last.key);
            },
        }
    }
}

/// Replaying one more operation applies it to what the others built.
pub proof fn lemma_replay_push(entries: Seq<WALEntryView>, entry: WALEntryView)
    ensures
        replay(entries.push(entry)) == apply(replay(entries), entry),
{
    assert(entries.push(entry).drop_last() =~= entries);
}

/// A key that is found in a table stands among the table's keys: the proof
/// returns a place where it stands.
pub proof fn lemma_found_is_listed(entries: Seq<(Seq<u8>, Seq<u8>)>, key: Seq<u8>) -> (i: int)
    requires
        find(entries, key).is_some(),
    ensures
        0 <= i < entries.len(),
        keys_of(entries)[i] == key,
        keys_of(entries).len() == entries.len(),
{
    lemma_find(entries, key);
    let i = choose|i: int| 0 <= i < entries.len() && (#[trigger] entries[i]).0 == key;
    i
}

/// The table that a flush writes holds exactly the entries flushed, and
/// its filter is well formed and admits every key among them.
pub proof fn lemma_flushed_table(
    index: nat,
    entries: Seq<(Seq<u8>, Seq<u8>)>,
    num_bits: nat,
    num_hashes: nat,
)
    requires
        fits(entries),
    ensures
        decode(flushed_table(index, entries, num_bits, num_hashes).data) == entries,
        flushed_table(index, entries, num_bits, num_hashes).filter.wf(),
        flushed_table(index, entries, num_bits, num_hashes).filter.num_bits >= 8,
        flushed_table(index, entries, num_bits, num_hashes).filter.num_items == entries.len(),
        forall|key: Seq<u8>|
            find(entries, key).is_some() ==> #[trigger] flushed_table(
                index,
                entries,
                num_bits,
                num_hashes,
            ).filter.admits(key),
{
    let fresh = BloomFilterView::with_params(num_bits, num_hashes);
    let table = flushed_table(index, entries, num_bits, num_hashes);
    lemma_round_trip(entries);
    lemma_with_keys_wf(fresh, keys_of(entries));
    assert forall|key: Seq<u8>| find(entries, key).is_some() implies #[trigger] table.filter.admits(
        key,
    ) by {
        let i = lemma_found_is_listed(entries, key);
        lemma_with_keys_admits(fresh, keys_of(entries), i);
    }
}

/// A flush keeps the state well formed.
pub proof fn lemma_flush_wf(state: LSMTreeView, num_bits: nat, num_hashes: nat)
    requires
        state.wf(),
    ensures
        state.flush(num_bits, num_hashes).wf(),
{
    let next = state.flush(num_bits, num_hashes);
    if state.memtable.len() > 0 {
        let table = flushed_table(state.next_index, state.memtable, num_bits, num_hashes);
        lemma_flushed_table(state.next_index, state.memtable, num_bits, num_hashes);
        assert(decode_log(Seq::<u8>::empty()) == Ok::<Seq<WALEntryView>, WalError>(Seq::empty()));
        assert(next.tables[0] == table);
        assert forall|i: int| 0 <= i < next.tables.len() implies (
        #[trigger] next.tables[i]).filter.wf() && next.tables[i].filter.num_bits > 0 by {
            if i > 0 {
                assert(next.tables[i] == state.tables[i - 1]);
            }
        }
        assert forall|i: int, j: int| 0 <= i < j < next.tables.len() implies (
        #[trigger] next.tables[i]).index >= (#[trigger] next.tables[j]).index by {
            assert(next.tables[j] == state.tables[j - 1]);
            if i > 0 {
                assert(next.tables[i] == state.tables[i - 1]);
            } else if j > 1 {
                assert(state.tables[0].index >= state.tables[j - 1].index);
            }
        }
    }
}

/// Logging a put and applying it to the in-memory table keeps the state
/// well formed.
pub proof fn lemma_stored_wf(state: LSMTreeView, key: Seq<u8>, value: Seq<u8>)
    requires
        state.wf(),
        key.len() <= u32::MAX,
        value.len() <= u32::MAX,
    ensures
        state.stored(key, value).wf(),
{
    let entry = WALEntryView { op: WALOp::Put, key, value };
    lemma_upsert(state.memtable, key, value);
    lemma_upsert_fits(state.memtable, key, value);
    lemma_decode_append(state.wal, entry);
    lemma_replay_push(decode_log(state.wal).unwrap(), entry);
}

/// A put keeps the state well formed.
pub proof fn lemma_put_wf(
    state: LSMTreeView,
    key: Seq<u8>,
    value: Seq<u8>,
    num_bits: nat,
    num_hashes: nat,
)
    requires
        state.wf(),
        key.len() <= u32::MAX,
        value.len() <= u32::MAX,
    ensures
        state.put(key, value, num_bits, num_hashes).wf(),
{
    lemma_stored_wf(state, key, value);
    lemma_flush_wf(state.stored(key, value), num_bits, num_hashes);
}

/// A flush changes no answer: every key reads as it did before.
pub proof fn lemma_flush_keeps_answers(
    state: LSMTreeView,
    num_bits: nat,
    num_hashes: nat,
    key: Seq<u8>,
)
    requires
        state.wf(),
    ensures
        state.flush(num_bits, num_hashes).get(key) == state.get(key),
{
    let next = state.flush(num_bits, num_hashes);
    if state.memtable.len() > 0 {
        let table = flushed_table(state.next_index, state.memtable, num_bits, num_hashes);
        lemma_flushed_table(state.next_index, state.memtable, num_bits, num_hashes);
        assert(next.tables[0] == table);
        assert(next.tables.drop_first() =~= state.tables);
        if find(state.memtable, key).is_some() {
            assert(table.filter.admits(key));
        }
    }
}

/// A value that is put is the value read back for its key, whether or not
/// the put flushed the in-memory table; whatever was put before under the
/// same key is shadowed. Every other key reads as it did before.
pub proof fn lemma_put_then_get(
    state: LSMTreeView,
    key: Seq<u8>,
    value: Seq<u8>,
    num_bits: nat,
    num_hashes: nat,
    other: Seq<u8>,
)
    requires
        state.wf(),
        key.len() <= u32::MAX,
        value.len() <= u32::MAX,
    ensures
        state.put(key, value, num_bits, num_hashes).get(key) == Some(value),
        other != key ==> state.put(key, value, num_bits, num_hashes).get(other) == state.get(
            other,
        ),
{
    let stored = state.stored(key, value);
    lemma_stored_wf(state, key, value);
    lemma_upsert(state.memtable, key, value);
    lemma_flush_keeps_answers(stored, num_bits, num_hashes, key);
    lemma_flush_keeps_answers(stored, num_bits, num_hashes, other);
}

/// A flush of a state whose filters admit all the keys of their tables
/// gives such a state again.
pub proof fn lemma_flush_sound(state: LSMTreeView, num_bits: nat, num_hashes: nat)
    requires
        state.wf(),
        state.sound(),
    ensures
        state.flush(num_bits, num_hashes).sound(),
{
    let next = state.flush(num_bits, num_hashes);
    if state.memtable.len() > 0 {
        let table = flushed_table(state.next_index, state.memtable, num_bits, num_hashes);
        lemma_flushed_table(state.next_index, state.memtable, num_bits, num_hashes);
        assert(next.tables[0] == table);
        assert forall|i: int, key: Seq<u8>|
            0 <= i < next.tables.len() && find(
                decode((#[trigger] next.tables[i]).data),
                key,
            ).is_some() implies #[trigger] next.tables[i].filter.admits(key) by {
            if i > 0 {
                assert(next.tables[i] == state.tables[i - 1]);
                assert(state.tables[i - 1].filter.admits(key));
            } else {
                assert(table.filter.admits(key));
            }
        }
    }
}

/// After a flush the in-memory table is empty. Where there was nothing to
/// flush, nothing else changed and no table was written. Otherwise a new
/// table stands first, under the number that was next, and holds exactly
/// what the in-memory table held; the tables that were there follow it; and
/// the log holds no record.
pub proof fn lemma_flush_outcome(state: LSMTreeView, num_bits: nat, num_hashes: nat)
    requires
        state.wf(),
    ensures
        state.flush(num_bits, num_hashes).memtable.len() == 0,
        state.memtable.len() == 0 ==> state.flush(num_bits, num_hashes) == state,
        state.memtable.len() > 0 ==> {
            let next = state.flush(num_bits, num_hashes);
            &&& next.tables.len() == state.tables.len() + 1
            &&& next.tables.drop_first() == state.tables
            &&& next.tables[0].index == state.next_index
            &&& decode(next.tables[0].data) == state.memtable
            &&& decode_log(next.wal) == Ok::<Seq<WALEntryView>, WalError>(Seq::empty())
        },
{
    if state.memtable.len() > 0 {
        let next = state.flush(num_bits, num_hashes);
        lemma_flushed_table(state.next_index, state.memtable, num_bits, num_hashes);
        assert(next.tables.drop_first() =~= state.tables);
    }
}

/// The place for a table number lies within the sequence; every table
/// before it has a greater number, and the table at it does not.
pub proof fn lemma_place_of(tables: Seq<TableView>, index: nat)
    ensures
        place_of(tables, index) <= tables.len(),
        forall|j: int| 0 <= j < place_of(tables, index) ==> (#[trigger] tables[j]).index > index,
        place_of(tables, index) < tables.len() ==> tables[place_of(tables, index) as int].index
            <= index,
    decreases tables.len(),
{
    if tables.len() > 0 && tables[0].index > index {
        let rest = tables.drop_first();
        lemma_place_of(rest, index);
        assert forall|j: int| 0 <= j < place_of(tables, index) implies (#[trigger] tables[j]).index
            > index by {
            if j > 0 {
                assert(tables[j] == rest[j - 1]);
            }
        }
        if place_of(tables, index) < tables.len() {
            assert(tables[place_of(tables, index) as int] == rest[place_of(rest, index) as int]);
        }
    }
}

/// A filter loaded from an image, or rebuilt from a table's keys, has the
/// bytes its bits need and addresses at least one bit.
pub proof fn lemma_loaded_table(file: TableFileView, params: (usize, usize))
    ensures
        loaded_table(file, params).index == file.index,
        loaded_table(file, params).data == file.data,
        loaded_table(file, params).filter.wf(),
        loaded_table(file, params).filter.num_bits > 0,
{
    lemma_with_keys_wf(
        BloomFilterView::with_params(params.0 as nat, params.1 as nat),
        scan_keys(file.data),
    );
}

/// A filter rebuilt from a table image admits every key that the table
/// holds.
pub proof fn lemma_rebuilt_filter_sound(
    data: Seq<u8>,
    num_bits: nat,
    num_hashes: nat,
    key: Seq<u8>,
)
    requires
        find(decode(data), key).is_some(),
    ensures
        rebuilt_filter(data, num_bits, num_hashes).admits(key),
{
    lemma_find(decode(data), key);
    let i = choose|i: int| 0 <= i < decode(data).len() && (#[trigger] decode(data)[i]).0 == key;
    crate::sstable::lemma_scan_keys_cover(data, i);
    lemma_with_keys_admits(
        BloomFilterView::with_params(num_bits, num_hashes),
        scan_keys(data),
        i,
    );
}

/// Loading and ordering table files gives one table for each file, newest
/// first, each with a filter that is fit for use.
pub proof fn lemma_ordered_tables(files: Seq<TableFileView>, params: Seq<(usize, usize)>)
    requires
        params.len() == files.len(),
    ensures
        ordered_tables(files, params).len() == files.len(),
        descending(ordered_tables(files, params)),
        forall|i: int|
            0 <= i < ordered_tables(files, params).len() ==> (#[trigger] ordered_tables(
                files,
                params,
            )[i]).filter.wf() && ordered_tables(files, params)[i].filter.num_bits > 0,
        forall|i: int|
            0 <= i < ordered_tables(files, params).len() ==> exists|j: int|
                0 <= j < files.len() && (#[trigger] ordered_tables(files, params)[i]).index
                    == (#[trigger] files[j]).index,
    decreases files.len(),
{
    if files.len() > 0 {
        let rest = ordered_tables(files.drop_first(), params.drop_first());
        let table = loaded_table(files[0], params[0]);
        let at = place_of(rest, files[0].index) as int;
        let all = ordered_tables(files, params);
        lemma_ordered_tables(files.drop_first(), params.drop_first());
        lemma_place_of(rest, files[0].index);
        lemma_loaded_table(files[0], params[0]);
        assert(all == rest.insert(at, table));
        assert forall|i: int, j: int| 0 <= i < j < all.len() implies (#[trigger] all[i]).index >= (
        #[trigger] all[j]).index by {
            let oi = if i < at { i } else { i - 1 };
            let oj = if j < at { j } else { j - 1 };
            if i != at {
                assert(all[i] == rest[oi]);
            }
            if j != at {
                assert(all[j] == rest[oj]);
            }
            if i == at {
                assert(rest[at].index >= rest[oj].index || oj == at);
            }
        }
        assert forall|i: int| 0 <= i < all.len() implies (#[trigger] all[i]).filter.wf()
            && all[i].filter.num_bits > 0 by {
            if i != at {
                let oi = if i < at { i } else { i - 1 };
                assert(all[i] == rest[oi]);
            }
        }
        assert forall|i: int| 0 <= i < all.len() implies exists|j: int|
            0 <= j < files.len() && (#[trigger] all[i]).index == (#[trigger] files[j]).index by {
            if i != at {
                let oi = if i < at { i } else { i - 1 };
                assert(all[i] == rest[oi]);
                let j = choose|j: int|
                    0 <= j < files.drop_first().len() && rest[oi].index == (
                    #[trigger] files.drop_first()[j]).index;
                assert(files.drop_first()[j] == files[j + 1]);
            } else {
                assert(all[i].index == files[0].index);
            }
        }
    }
}

/// Ordering rearranges and loses nothing: the ordered tables are exactly
/// the tables loaded from the files, each as often as it was given.
pub proof fn lemma_ordered_tables_permutation(
    files: Seq<TableFileView>,
    params: Seq<(usize, usize)>,
)
    requires
        params.len() == files.len(),
    ensures
        ordered_tables(files, params).to_multiset() == loaded_tables(files, params).to_multiset(),
    decreases files.len(),
{
    if files.len() > 0 {
        let rest_files = files.drop_first();
        let rest_params = params.drop_first();
        let rest = ordered_tables(rest_files, rest_params);
        let table = loaded_table(files[0], params[0]);
        let at = place_of(rest, files[0].index) as int;
        lemma_ordered_tables_permutation(rest_files, rest_params);
        lemma_place_of(rest, files[0].index);
        vstd::seq_lib::to_multiset_insert(rest, at, table);
        let loaded_rest = loaded_tables(rest_files, rest_params);
        vstd::seq_lib::to_multiset_insert(loaded_rest, 0, table);
        assert(loaded_tables(files, params) =~= loaded_rest.insert(0, table));
    } else {
        assert(ordered_tables(files, params) =~= loaded_tables(files, params));
    }
}

/// Opening a data directory gives a well-formed state, whatever the
/// directory holds, as long as its log recovers.
pub proof fn lemma_open_wf(dir: DirectoryView, threshold: nat, params: Seq<(usize, usize)>)
    requires
        params.len() == dir.tables.len(),
        decode_log(dir.wal).is_ok(),
        threshold > 0,
    ensures
        LSMTreeView::open(dir, threshold, params).is_ok(),
        LSMTreeView::open(dir, threshold, params).unwrap().wf(),
        byte_size(LSMTreeView::open(dir, threshold, params).unwrap().memtable) <= dir.wal.len(),
{
    lemma_decode_bounds(dir.wal);
    lemma_replay(decode_log(dir.wal).unwrap());
    lemma_ordered_tables(dir.tables, params);
}

/// Tables that already stand newest first keep their order when their
/// files are loaded and ordered, and a filter that was serialized is
/// loaded as it was.
pub proof fn lemma_ordered_tables_of_directory(
    tables: Seq<TableView>,
    params: Seq<(usize, usize)>,
)
    requires
        params.len() == tables.len(),
        descending(tables),
        forall|i: int|
            0 <= i < tables.len() ==> {
                &&& (#[trigger] tables[i]).filter.wf()
                &&& tables[i].filter.num_bits > 0
                &&& tables[i].filter.num_bits <= u32::MAX
                &&& tables[i].filter.num_hashes <= u32::MAX
                &&& tables[i].filter.num_items <= u32::MAX
            },
    ensures
        ordered_tables(
            Seq::new(
                tables.len(),
                |i: int|
                    TableFileView {
                        index: tables[i].index,
                        data: tables[i].data,
                        bloom: Some(tables[i].filter.to_bytes()),
                    },
            ),
            params,
        ) == tables,
{
    let files = Seq::new(
        tables.len(),
        |i: int|
            TableFileView {
                index: tables[i].index,
                data: tables[i].data,
                bloom: Some(tables[i].filter.to_bytes()),
            },
    );
    assert forall|i: int, j: int| 0 <= i < j < files.len() implies (#[trigger] files[i]).index >= (
    #[trigger] files[j]).index by {
        assert(tables[i].index >= tables[j].index);
    }
    lemma_ordered_tables_in_order(files, params);
    let ordered = ordered_tables(files, params);
    assert forall|i: int| 0 <= i < tables.len() implies #[trigger] ordered[i] == tables[i] by {
        let filter = tables[i].filter;
        lemma_serialization_round_trip(filter, Seq::empty());
        assert(filter.to_bytes() + Seq::<u8>::empty() =~= filter.to_bytes());
        assert(usable_filter(filter.to_bytes()) == Some(filter));
        assert(ordered[i] == loaded_table(files[i], params[i]));
    }
    assert(ordered =~= tables);
}

/// Recovery: opening the data directory that holds a state gives that
/// state back, with the counters of filter checks at zero. Whatever was
/// put and not flushed is replayed from the log, and whatever was flushed
/// stands in its table, so every key reads as it did before the stop.
///
/// The header fields of every filter must fit in 32 bits.
pub proof fn lemma_recovery(state: LSMTreeView, params: Seq<(usize, usize)>, key: Seq<u8>)
    requires
        state.wf(),
        params.len() == state.tables.len(),
        forall|i: int|
            0 <= i < state.tables.len() ==> {
                &&& (#[trigger] state.tables[i]).filter.num_bits <= u32::MAX
                &&& state.tables[i].filter.num_hashes <= u32::MAX
                &&& state.tables[i].filter.num_items <= u32::MAX
            },
    ensures
        LSMTreeView::open(state.directory(), state.threshold, params) == Ok::<
            LSMTreeView,
            OpenError,
        >(state.reset_stats()),
        LSMTreeView::open(state.directory(), state.threshold, params).unwrap().get(key)
            == state.get(key),
{
    lemma_ordered_tables_of_directory(state.tables, params);
}

/// A write that was logged survives a stop before any flush: after a put,
/// opening the directory anew and reading the key gives the value put.
pub proof fn lemma_put_survives_reopen(
    state: LSMTreeView,
    key: Seq<u8>,
    value: Seq<u8>,
    num_bits: nat,
    num_hashes: nat,
    params: Seq<(usize, usize)>,
)
    requires
        state.wf(),
        key.len() <= u32::MAX,
        value.len() <= u32::MAX,
        num_bits <= u32::MAX,
        state.memtable.len() < u32::MAX,
        params.len() == state.put(key, value, num_bits, num_hashes).tables.len(),
        forall|i: int|
            0 <= i < state.tables.len() ==> {
                &&& (#[trigger] state.tables[i]).filter.num_bits <= u32::MAX
                &&& state.tables[i].filter.num_hashes <= u32::MAX
                &&& state.tables[i].filter.num_items <= u32::MAX
            },
    ensures
        LSMTreeView::open(
            state.put(key, value, num_bits, num_hashes).directory(),
            state.threshold,
            params,
        ).is_ok(),
        LSMTreeView::open(
            state.put(key, value, num_bits, num_hashes).directory(),
            state.threshold,
            params,
        ).unwrap().get(key) == Some(value),
{
    let after = state.put(key, value, num_bits, num_hashes);
    let stored = state.stored(key, value);
    lemma_put_wf(state, key, value, num_bits, num_hashes);
    lemma_put_then_get(state, key, value, num_bits, num_hashes, key);
    lemma_stored_wf(state, key, value);
    lemma_upsert(state.memtable, key, value);
    assert forall|i: int| 0 <= i < after.tables.len() implies {
        &&& (#[trigger] after.tables[i]).filter.num_bits <= u32::MAX
        &&& after.tables[i].filter.num_hashes <= u32::MAX
        &&& after.tables[i].filter.num_items <= u32::MAX
    } by {
        if after.tables.len() == state.tables.len() {
            assert(after.tables[i] == state.tables[i]);
        } else {
            lemma_flushed_table(stored.next_index, stored.memtable, num_bits, num_hashes);
            lemma_with_keys_wf(
                BloomFilterView::with_params(num_bits, num_hashes),
                keys_of(stored.memtable),
            );
            if i > 0 {
                assert(after.tables[i] == state.tables[i - 1]);
            }
        }
    }
    lemma_recovery(after, params, key);
}

/// A write that was flushed survives a stop: after a put and a flush,
/// opening the directory anew and reading the key gives the value put,
/// now from its table.
pub proof fn lemma_flush_survives_reopen(
    state: LSMTreeView,
    key: Seq<u8>,
    value: Seq<u8>,
    num_bits: nat,
    num_hashes: nat,
    params: Seq<(usize, usize)>,
)
    requires
        state.wf(),
        key.len() <= u32::MAX,
        value.len() <= u32::MAX,
        num_bits <= u32::MAX,
        state.memtable.len() < u32::MAX,
        params.len() == state.put(key, value, num_bits, num_hashes).flush(
            num_bits,
            num_hashes,
        ).tables.len(),
        forall|i: int|
            0 <= i < state.tables.len() ==> {
                &&& (#[trigger] state.tables[i]).filter.num_bits <= u32::MAX
                &&& state.tables[i].filter.num_hashes <= u32::MAX
                &&& state.tables[i].filter.num_items <= u32::MAX
            },
    ensures
        state.put(key, value, num_bits, num_hashes).flush(num_bits, num_hashes).memtable.len()
            == 0,
        LSMTreeView::open(
            state.put(key, value, num_bits, num_hashes).flush(num_bits, num_hashes).directory(),
            state.threshold,
            params,
        ).is_ok(),
        LSMTreeView::open(
            state.put(key, value, num_bits, num_hashes).flush(num_bits, num_hashes).directory(),
            state.threshold,
            params,
        ).unwrap().get(key) == Some(value),
{
    let stored = state.stored(key, value);
    let after = state.put(key, value, num_bits, num_hashes);
    let flushed = after.flush(num_bits, num_hashes);
    lemma_stored_wf(state, key, value);
    lemma_upsert(state.memtable, key, value);
    lemma_put_wf(state, key, value, num_bits, num_hashes);
    lemma_put_then_get(state, key, value, num_bits, num_hashes, key);
    lemma_flush_wf(after, num_bits, num_hashes);
    lemma_flush_keeps_answers(after, num_bits, num_hashes, key);
    assert(flushed.tables.len() <= state.tables.len() + 1);
    assert forall|i: int| 0 <= i < flushed.tables.len() implies {
        &&& (#[trigger] flushed.tables[i]).filter.num_bits <= u32::MAX
        &&& flushed.tables[i].filter.num_hashes <= u32::MAX
        &&& flushed.tables[i].filter.num_items <= u32::MAX
    } by {
        if flushed.tables.len() == state.tables.len() {
            assert(flushed.tables[i] == state.tables[i]);
        } else {
            lemma_flushed_table(stored.next_index, stored.memtable, num_bits, num_hashes);
            lemma_with_keys_wf(
                BloomFilterView::with_params(num_bits, num_hashes),
                keys_of(stored.memtable),
            );
            if i > 0 {
                assert(flushed.tables[i] == state.tables[i - 1]);
            }
        }
    }
    lemma_recovery(flushed, params, key);
}

/// An empty data directory opens to an engine that holds nothing: every
/// read finds no value.
pub proof fn lemma_empty_directory_reads_nothing(threshold: nat, key: Seq<u8>)
    requires
        threshold > 0,
    ensures
        LSMTreeView::open(
            DirectoryView { wal: Seq::empty(), tables: Seq::empty() },
            threshold,
            Seq::empty(),
        ).is_ok(),
        LSMTreeView::open(
            DirectoryView { wal: Seq::empty(), tables: Seq::empty() },
            threshold,
            Seq::empty(),
        ).unwrap().get(key).is_none(),
{
    let dir = DirectoryView { wal: Seq::empty(), tables: Seq::empty() };
    assert(decode_log(dir.wal) == Ok::<Seq<WALEntryView>, WalError>(Seq::empty()));
    assert(replay(Seq::<WALEntryView>::empty()) =~= Seq::empty());
    assert(ordered_tables(dir.tables, Seq::empty()) =~= Seq::empty());
}

/// Filters that admit a key wherever a table holds it do not change what
/// a read of that key finds.
pub proof fn lemma_search_is_scan(tables: Seq<TableView>, key: Seq<u8>)
    requires
        forall|i: int|
            0 <= i < tables.len() && find(decode((#[trigger] tables[i]).data), key).is_some()
                ==> tables[i].filter.admits(key),
    ensures
        search(tables, key) == scan(tables, key),
    decreases tables.len(),
{
    if tables.len() > 0 {
        let rest = tables.drop_first();
        assert forall|i: int|
            0 <= i < rest.len() && find(decode((#[trigger] rest[i]).data), key).is_some()
                implies rest[i].filter.admits(key) by {
            assert(rest[i] == tables[i + 1]);
        }
        lemma_search_is_scan(rest, key);
        assert(tables[0] == tables[0]);
    }
}

/// Filters lose nothing: where every filter admits all the keys of its
/// table, a read returns what it would return with no filter at all.
pub proof fn lemma_filters_lose_nothing(state: LSMTreeView, key: Seq<u8>)
    requires
        state.sound(),
    ensures
        state.get(key) == state.get_unfiltered(key),
{
    assert forall|i: int|
        0 <= i < state.tables.len() && find(
            decode((#[trigger] state.tables[i]).data),
            key,
        ).is_some() implies state.tables[i].filter.admits(key) by {
        assert(state.tables[i].filter.admits(key));
    }
    lemma_search_is_scan(state.tables, key);
}

/// Tables with the same images in the same order give the same answer
/// when no filter is consulted.
pub proof fn lemma_scan_same_data(a: Seq<TableView>, b: Seq<TableView>, key: Seq<u8>)
    requires
        a.len() == b.len(),
        forall|i: int| 0 <= i < a.len() ==> (#[trigger] a[i]).data == b[i].data,
    ensures
        scan(a, key) == scan(b, key),
    decreases a.len(),
{
    if a.len() > 0 {
        assert(a[0].data == b[0].data);
        assert forall|i: int| 0 <= i < a.drop_first().len() implies (
        #[trigger] a.drop_first()[i]).data == b.drop_first()[i].data by {
            assert(a.drop_first()[i] == a[i + 1]);
            assert(b.drop_first()[i] == b[i + 1]);
            assert(a[i + 1].data == b[i + 1].data);
        }
        lemma_scan_same_data(a.drop_first(), b.drop_first(), key);
    }
}

/// Files that already stand newest first are loaded in the order given.
pub proof fn lemma_ordered_tables_in_order(
    files: Seq<TableFileView>,
    params: Seq<(usize, usize)>,
)
    requires
        params.len() == files.len(),
        forall|i: int, j: int|
            0 <= i < j < files.len() ==> (#[trigger] files[i]).index >= (#[trigger] files[j]).index,
    ensures
        ordered_tables(files, params).len() == files.len(),
        forall|i: int|
            0 <= i < files.len() ==> (#[trigger] ordered_tables(files, params)[i]) == loaded_table(
                files[i],
                params[i],
            ),
    decreases files.len(),
{
    if files.len() > 0 {
        let rest_files = files.drop_first();
        let rest_params = params.drop_first();
        assert forall|i: int, j: int| 0 <= i < j < rest_files.len() implies (
        #[trigger] rest_files[i]).index >= (#[trigger] rest_files[j]).index by {
            assert(rest_files[i] == files[i + 1]);
            assert(rest_files[j] == files[j + 1]);
        }
        lemma_ordered_tables_in_order(rest_files, rest_params);
        let rest = ordered_tables(rest_files, rest_params);
        if rest.len() > 0 {
            assert(rest[0] == loaded_table(rest_files[0], rest_params[0]));
            assert(rest_files[0] == files[1]);
            assert(files[0].index >= files[1].index);
        }
        assert(place_of(rest, files[0].index) == 0);
        let all = ordered_tables(files, params);
        assert(all == rest.insert(0, loaded_table(files[0], params[0])));
        assert forall|i: int| 0 <= i < files.len() implies (#[trigger] all[i]) == loaded_table(
            files[i],
            params[i],
        ) by {
            if i > 0 {
                assert(all[i] == rest[i - 1]);
                assert(rest_files[i - 1] == files[i]);
                assert(rest_params[i - 1] == params[i]);
            }
        }
    }
}

/// Lost filters are made good: where the filter files of a directory are
/// gone, or hold what cannot be used, opening rebuilds every filter from
/// its table, and every key reads as it did before the stop.
pub proof fn lemma_recovery_without_filters(
    state: LSMTreeView,
    dir: DirectoryView,
    params: Seq<(usize, usize)>,
    key: Seq<u8>,
)
    requires
        state.wf(),
        state.sound(),
        dir.wal == state.wal,
        dir.tables.len() == state.tables.len(),
        params.len() == dir.tables.len(),
        forall|i: int|
            0 <= i < dir.tables.len() ==> {
                &&& (#[trigger] dir.tables[i]).index == state.tables[i].index
                &&& dir.tables[i].data == state.tables[i].data
                &&& (dir.tables[i].bloom.is_none() || usable_filter(
                    dir.tables[i].bloom.unwrap(),
                ).is_none())
            },
    ensures
        LSMTreeView::open(dir, state.threshold, params).is_ok(),
        LSMTreeView::open(dir, state.threshold, params).unwrap().wf(),
        LSMTreeView::open(dir, state.threshold, params).unwrap().sound(),
        LSMTreeView::open(dir, state.threshold, params).unwrap().get(key) == state.get(key),
{
    let opened = LSMTreeView::open(dir, state.threshold, params).unwrap();
    lemma_open_wf(dir, state.threshold, params);
    assert forall|i: int, j: int| 0 <= i < j < dir.tables.len() implies (
    #[trigger] dir.tables[i]).index >= (#[trigger] dir.tables[j]).index by {
        assert(state.tables[i].index >= state.tables[j].index);
    }
    lemma_ordered_tables_in_order(dir.tables, params);
    assert forall|i: int, k: Seq<u8>|
        0 <= i < opened.tables.len() && find(
            decode((#[trigger] opened.tables[i]).data),
            k,
        ).is_some() implies #[trigger] opened.tables[i].filter.admits(k) by {
        assert(opened.tables[i] == loaded_table(dir.tables[i], params[i]));
        lemma_rebuilt_filter_sound(
            dir.tables[i].data,
            params[i].0 as nat,
            params[i].1 as nat,
            k,
        );
    }
    assert forall|i: int| 0 <= i < opened.tables.len() implies (#[trigger] opened.tables[i]).data
        == state.tables[i].data by {
        assert(opened.tables[i] == loaded_table(dir.tables[i], params[i]));
    }
    lemma_filters_lose_nothing(opened, key);
    lemma_filters_lose_nothing(state, key);
    lemma_scan_same_data(opened.tables, state.tables, key);
}

/// A log that was not truncated after a flush does no harm: where the
/// directory holds the flushed table and still the whole log, opening
/// replays records that the table already holds, and every key reads as
/// it did before the stop.
pub proof fn lemma_redundant_log_is_harmless(
    state: LSMTreeView,
    num_bits: nat,
    num_hashes: nat,
    params: Seq<(usize, usize)>,
    key: Seq<u8>,
)
    requires
        state.wf(),
        num_bits <= u32::MAX,
        state.memtable.len() <= u32::MAX,
        params.len() == state.flush(num_bits, num_hashes).tables.len(),
        forall|i: int|
            0 <= i < state.tables.len() ==> {
                &&& (#[trigger] state.tables[i]).filter.num_bits <= u32::MAX
                &&& state.tables[i].filter.num_hashes <= u32::MAX
                &&& state.tables[i].filter.num_items <= u32::MAX
            },
    ensures
        LSMTreeView::open(
            DirectoryView {
                wal: state.wal,
                tables: state.flush(num_bits, num_hashes).directory().tables,
            },
            state.threshold,
            params,
        ).is_ok(),
        LSMTreeView::open(
            DirectoryView {
                wal: state.wal,
                tables: state.flush(num_bits, num_hashes).directory().tables,
            },
            state.threshold,
            params,
        ).unwrap().get(key) == state.get(key),
{
    let flushed = state.flush(num_bits, num_hashes);
    let dir = DirectoryView { wal: state.wal, tables: flushed.directory().tables };
    lemma_flush_wf(state, num_bits, num_hashes);
    lemma_flush_keeps_answers(state, num_bits, num_hashes, key);
    assert forall|i: int| 0 <= i < flushed.tables.len() implies {
        &&& (#[trigger] flushed.tables[i]).filter.wf()
        &&& flushed.tables[i].filter.num_bits > 0
        &&& flushed.tables[i].filter.num_bits <= u32::MAX
        &&& flushed.tables[i].filter.num_hashes <= u32::MAX
        &&& flushed.tables[i].filter.num_items <= u32::MAX
    } by {
        if flushed.tables.len() == state.tables.len() {
            assert(flushed.tables[i] == state.tables[i]);
        } else {
            lemma_flushed_table(state.next_index, state.memtable, num_bits, num_hashes);
            lemma_with_keys_wf(
                BloomFilterView::with_params(num_bits, num_hashes),
                keys_of(state.memtable),
            );
            if i > 0 {
                assert(flushed.tables[i] == state.tables[i - 1]);
            }
        }
    }
    lemma_ordered_tables_of_directory(flushed.tables, params);
    let opened = LSMTreeView::open(dir, state.threshold, params).unwrap();
    assert(opened.memtable == state.memtable);
    assert(opened.tables == flushed.tables);
    if state.memtable.len() > 0 && find(state.memtable, key).is_none() {
        lemma_flushed_table(state.next_index, state.memtable, num_bits, num_hashes);
        assert(flushed.tables.drop_first() =~= state.tables);
    }
}

} // verus!
