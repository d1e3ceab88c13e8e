//! The in-memory table: an ordered mapping from key to value with exact
//! accounting of the bytes it holds.
//!
//! Entries are kept in a vector, strictly ascending by key in
//! byte-lexicographic order, so no key occurs twice and enumeration is in
//! key order.

use vstd::prelude::*;
use crate::bytes::{
    bytes_equal, copy_range, lemma_lex_lt_transitive, lemma_lex_lt_trichotomy, lex_less, lex_lt,
    pairs_view, strings_view,
};
use crate::sstable::{find, keys_of};

verus! {

/// Keys strictly ascend: each entry's key sorts before the key of every
/// later entry.
pub open spec fn sorted(entries: Seq<(Seq<u8>, Seq<u8>)>) -> bool {
    forall|i: int, j: int|
        0 <= i < j < entries.len() ==> lex_lt((#[trigger] entries[i]).0, (#[trigger] entries[j]).0)
}

/// The bytes that keys and values take together.
pub open spec fn byte_size(entries: Seq<(Seq<u8>, Seq<u8>)>) -> nat
    decreases entries.len(),
{
    if entries.len() == 0 {
        0
    } else {
        byte_size(entries.drop_last()) + entries.last().0.len() + entries.last().1.len()
    }
}

/// Number of leading entries whose key sorts before `key`. In a sorted
/// sequence this is the place where `key` stands or would be inserted.
pub open spec fn rank(entries: Seq<(Seq<u8>, Seq<u8>)>, key: Seq<u8>) -> nat
    decreases entries.len(),
{
    if entries.len() == 0 || !lex_lt(entries[0].0, key) {
        0
    } else {
        1 + rank(entries.drop_first(), key)
    }
}

/// Whether `key` stands at its place in `entries`.
pub open spec fn present(entries: Seq<(Seq<u8>, Seq<u8>)>, key: Seq<u8>) -> bool {
    rank(entries, key) < entries.len() && entries[rank(entries, key) as int].0 == key
}

/// The entries after `key` is set to `value`: the entry at the key's place
/// is replaced if it has that key, and a new entry is put there if not.
pub open spec fn upsert(entries: Seq<(Seq<u8>, Seq<u8>)>, key: Seq<u8>, value: Seq<u8>) -> Seq<
    (Seq<u8>, Seq<u8>),
> {
    if present(entries, key) {
        entries.update(rank(entries, key) as int, (key, value))
    } else {
        entries.insert(rank(entries, key) as int, (key, value))
    }
}

/// The entries after `key` is removed, if it was there.
pub open spec fn without(entries: Seq<(Seq<u8>, Seq<u8>)>, key: Seq<u8>) -> Seq<
    (Seq<u8>, Seq<u8>),
> {
    if present(entries, key) {
        entries.remove(rank(entries, key) as int)
    } else {
        entries
    }
}

/// The rank never exceeds the length; every entry before it has a key that
/// sorts before `key`, and the entry at it does not.
pub proof fn lemma_rank(entries: Seq<(Seq<u8>, Seq<u8>)>, key: Seq<u8>)
    ensures
        rank(entries, key) <= entries.len(),
        forall|j: int| 0 <= j < rank(entries, key) ==> lex_lt((#[trigger] entries[j]).0, key),
        rank(entries, key) < entries.len() ==> !lex_lt(entries[rank(entries, key) as int].0, key),
    decreases entries.len(),
{
    if entries.len() > 0 && lex_lt(entries[0].0, key) {
        let rest = entries.drop_first();
        lemma_rank(rest, key);
        assert forall|j: int| 0 <= j < rank(entries, key) implies lex_lt(
            (#[trigger] entries[j]).0,
            key,
        ) by {
            if j > 0 {
                assert(entries[j] == rest[j - 1]);
            }
        }
        if rank(entries, key) < entries.len() {
            assert(entries[rank(entries, key) as int] == rest[rank(rest, key) as int]);
        }
    }
}

/// The rank is the one place before which every key sorts before `key`
/// and at which the key does not.
pub proof fn lemma_rank_is(entries: Seq<(Seq<u8>, Seq<u8>)>, key: Seq<u8>, at: int)
    requires
        0 <= at <= entries.len(),
        forall|j: int| 0 <= j < at ==> lex_lt((#[trigger] entries[j]).0, key),
        at < entries.len() ==> !lex_lt(entries[at].0, key),
    ensures
        rank(entries, key) == at,
{
    lemma_rank(entries, key);
    let r = rank(entries, key) as int;
    if r < at {
        assert(lex_lt(entries[r].0, key));
    } else if at < r {
        assert(lex_lt(entries[at].0, key));
    }
}

/// In a sorted sequence every entry from the rank of `key` on has a key
/// that does not sort before `key`, and every entry after the key's own
/// has a key that sorts after it.
pub proof fn lemma_rank_sorted(entries: Seq<(Seq<u8>, Seq<u8>)>, key: Seq<u8>)
    requires
        sorted(entries),
    ensures
        forall|j: int|
            rank(entries, key) <= j < entries.len() ==> !lex_lt((#[trigger] entries[j]).0, key),
        forall|j: int|
            rank(entries, key) <= j < entries.len() && (#[trigger] entries[j]).0 != key ==> lex_lt(
                key,
                entries[j].0,
            ),
        forall|j: int| 0 <= j < entries.len() && (#[trigger] entries[j]).0 == key ==> j == rank(
            entries,
            key,
        ),
{
    let r = rank(entries, key) as int;
    lemma_rank(entries, key);
    assert forall|j: int| r <= j < entries.len() implies !lex_lt(
        (#[trigger] entries[j]).0,
        key,
    ) by {
        if j > r && lex_lt(entries[j].0, key) {
            assert(lex_lt(entries[r].0, entries[j].0));
            lemma_lex_lt_transitive(entries[r].0, entries[j].0, key);
        }
    }
    assert forall|j: int| r <= j < entries.len() && (#[trigger] entries[j]).0 != key implies lex_lt(
        key,
        entries[j].0,
    ) by {
        lemma_lex_lt_trichotomy(entries[j].0, key);
    }
    assert forall|j: int| 0 <= j < entries.len() && (#[trigger] entries[j]).0 == key implies j
        == r by {
        lemma_lex_lt_trichotomy(entries[j].0, key);
        if j > r {
            assert(lex_lt(entries[r].0, entries[j].0));
            lemma_lex_lt_trichotomy(entries[r].0, key);
        }
    }
}

/// In a sorted sequence the first entry with a key is the only one, and it
/// stands at the key's rank.
pub proof fn lemma_find_sorted(entries: Seq<(Seq<u8>, Seq<u8>)>, key: Seq<u8>)
    requires
        sorted(entries),
    ensures
        find(entries, key) == if present(entries, key) {
            Some(entries[rank(entries, key) as int].1)
        } else {
            None::<Seq<u8>>
        },
{
    lemma_rank(entries, key);
    lemma_rank_sorted(entries, key);
    crate::sstable::lemma_find(entries, key);
    let r = rank(entries, key) as int;
    if present(entries, key) {
        assert(entries[r].0 == key);
    }
}

/// Setting a key keeps the sequence sorted, makes the key map to the new
/// value and leaves every other key as it was.
pub proof fn lemma_upsert(entries: Seq<(Seq<u8>, Seq<u8>)>, key: Seq<u8>, value: Seq<u8>)
    requires
        sorted(entries),
    ensures
        sorted(upsert(entries, key, value)),
        find(upsert(entries, key, value), key) == Some(value),
        forall|other: Seq<u8>|
            other != key ==> find(upsert(entries, key, value), other) == find(entries, other),
        upsert(entries, key, value).len() == if present(entries, key) {
            entries.len()
        } else {
            entries.len() + 1
        },
{
    let r = rank(entries, key) as int;
    let next = upsert(entries, key, value);
    lemma_rank(entries, key);
    lemma_rank_sorted(entries, key);
    assert forall|i: int, j: int| 0 <= i < j < next.len() implies lex_lt(
        (#[trigger] next[i]).0,
        (#[trigger] next[j]).0,
    ) by {
        if present(entries, key) {
            assert(next[i].0 == entries[i].0);
            assert(next[j].0 == entries[j].0);
        } else {
            let oi = if i < r { i } else { i - 1 };
            let oj = if j < r { j } else { j - 1 };
            if i != r {
                assert(next[i] == entries[oi]);
            }
            if j != r {
                assert(next[j] == entries[oj]);
            }
        }
    }
    assert(next[r] == (key, value));
    lemma_find_unique(next, key, r);
    assert forall|other: Seq<u8>| other != key implies find(next, other) == find(
        entries,
        other,
    ) by {
        crate::sstable::lemma_find(entries, other);
        match find(entries, other) {
            Some(found) => {
                let i = choose|i: int|
                    0 <= i < entries.len() && (#[trigger] entries[i]).0 == other && entries[i].1
                        == found;
                let ni = if present(entries, key) || i < r { i } else { i + 1 };
                assert(next[ni] == entries[i]);
                lemma_find_unique(next, other, ni);
            },
            None => {
                crate::sstable::lemma_find(next, other);
                if find(next, other).is_some() {
                    let ni = choose|ni: int|
                        0 <= ni < next.len() && (#[trigger] next[ni]).0 == other;
                    let i = if present(entries, key) || ni < r { ni } else { ni - 1 };
                    assert(next[ni] == entries[i]);
                }
            },
        }
    }
}

/// Removing a key keeps the sequence sorted, makes the key absent and
/// leaves every other key as it was.
pub proof fn lemma_without(entries: Seq<(Seq<u8>, Seq<u8>)>, key: Seq<u8>)
    requires
        sorted(entries),
    ensures
        sorted(without(entries, key)),
        find(without(entries, key), key).is_none(),
        forall|other: Seq<u8>| other != key ==> find(without(entries, key), other) == find(
            entries,
            other,
        ),
{
    let r = rank(entries, key) as int;
    let next = without(entries, key);
    lemma_rank(entries, key);
    lemma_rank_sorted(entries, key);
    assert forall|i: int, j: int| 0 <= i < j < next.len() implies lex_lt(
        (#[trigger] next[i]).0,
        (#[trigger] next[j]).0,
    ) by {
        let oi = if present(entries, key) && i >= r { i + 1 } else { i };
        let oj = if present(entries, key) && j >= r { j + 1 } else { j };
        assert(next[i] == entries[oi]);
        assert(next[j] == entries[oj]);
    }
    crate::sstable::lemma_find(next, key);
    if find(next, key).is_some() {
        let ni = choose|ni: int| 0 <= ni < next.len() && (#[trigger] next[ni]).0 == key;
        let i = if present(entries, key) && ni >= r { ni + 1 } else { ni };
        assert(next[ni] == entries[i]);
    }
    assert forall|other: Seq<u8>| other != key implies find(next, other) == find(
        entries,
        other,
    ) by {
        crate::sstable::lemma_find(entries, other);
        match find(entries, other) {
            Some(found) => {
                let i = choose|i: int|
                    0 <= i < entries.len() && (#[trigger] entries[i]).0 == other && entries[i].1
                        == found;
                let ni = if present(entries, key) && i > r { i - 1 } else { i };
                assert(next[ni] == entries[i]);
                lemma_find_unique(next, other, ni);
            },
            None => {
                crate::sstable::lemma_find(next, other);
                if find(next, other).is_some() {
                    let ni = choose|ni: int|
                        0 <= ni < next.len() && (#[trigger] next[ni]).0 == other;
                    let i = if present(entries, key) && ni >= r { ni + 1 } else { ni };
                    assert(next[ni] == entries[i]);
                }
            },
        }
    }
}

/// In a sorted sequence an entry is found under its key.
pub proof fn lemma_find_unique(entries: Seq<(Seq<u8>, Seq<u8>)>, key: Seq<u8>, at: int)
    requires
        sorted(entries),
        0 <= at < entries.len(),
        entries[at].0 == key,
    ensures
        find(entries, key) == Some(entries[at].1),
{
    crate::sstable::lemma_find(entries, key);
    let i = choose|i: int|
        0 <= i < entries.len() && (#[trigger] entries[i]).0 == key && Some(entries[i].1) == find(
            entries,
            key,
        );
    if i < at {
        assert(lex_lt(entries[i].0, entries[at].0));
        lemma_lex_lt_trichotomy(entries[i].0, entries[at].0);
    } else if at < i {
        assert(lex_lt(entries[at].0, entries[i].0));
        lemma_lex_lt_trichotomy(entries[at].0, entries[i].0);
    }
}

/// The bytes of two sequences of entries add up.
pub proof fn lemma_byte_size_add(a: Seq<(Seq<u8>, Seq<u8>)>, b: Seq<(Seq<u8>, Seq<u8>)>)
    ensures
        byte_size(a + b) == byte_size(a) + byte_size(b),
    decreases b.len(),
{
    if b.len() == 0 {
        assert(a + b =~= a);
    } else {
        lemma_byte_size_add(a, b.drop_last());
        assert((a + b).drop_last() =~= a + b.drop_last());
        assert((a + b).last() == b.last());
    }
}

/// How setting a key changes the bytes held: the new entry's bytes are
/// added, and those of the entry it replaces, if any, are taken off.
pub proof fn lemma_byte_size_upsert(entries: Seq<(Seq<u8>, Seq<u8>)>, key: Seq<u8>, value: Seq<u8>)
    ensures
        byte_size(upsert(entries, key, value)) == if present(entries, key) {
            byte_size(entries) - key.len() - entries[rank(entries, key) as int].1.len()
                + key.len() + value.len()
        } else {
            (byte_size(entries) + key.len() + value.len()) as int
        },
        present(entries, key) ==> byte_size(entries) >= key.len() + entries[rank(
            entries,
            key,
        ) as int].1.len(),
{
    let r = rank(entries, key) as int;
    lemma_rank(entries, key);
    let head = entries.take(r);
    let one = seq![(key, value)];
    lemma_byte_size_one((key, value));
    if present(entries, key) {
        let tail = entries.skip(r + 1);
        lemma_byte_size_one(entries[r]);
        assert(entries =~= head + seq![entries[r]] + tail);
        assert(upsert(entries, key, value) =~= head + one + tail);
        lemma_byte_size_add(head, seq![entries[r]]);
        lemma_byte_size_add(head + seq![entries[r]], tail);
        lemma_byte_size_add(head, one);
        lemma_byte_size_add(head + one, tail);
    } else {
        let tail = entries.skip(r);
        assert(entries =~= head + tail);
        assert(upsert(entries, key, value) =~= head + one + tail);
        lemma_byte_size_add(head, tail);
        lemma_byte_size_add(head, one);
        lemma_byte_size_add(head + one, tail);
    }
}

/// How removing a key changes the bytes held.
pub proof fn lemma_byte_size_without(entries: Seq<(Seq<u8>, Seq<u8>)>, key: Seq<u8>)
    ensures
        byte_size(without(entries, key)) == if present(entries, key) {
            byte_size(entries) - key.len() - entries[rank(entries, key) as int].1.len()
        } else {
            byte_size(entries) as int
        },
{
    let r = rank(entries, key) as int;
    lemma_rank(entries, key);
    if present(entries, key) {
        let head = entries.take(r);
        let tail = entries.skip(r + 1);
        lemma_byte_size_one(entries[r]);
        assert(entries =~= head + seq![entries[r]] + tail);
        assert(without(entries, key) =~= head + tail);
        lemma_byte_size_add(head, seq![entries[r]]);
        lemma_byte_size_add(head + seq![entries[r]], tail);
        lemma_byte_size_add(head, tail);
    }
}

/// The bytes of a single entry.
proof fn lemma_byte_size_one(entry: (Seq<u8>, Seq<u8>))
    ensures
        byte_size(seq![entry]) == entry.0.len() + entry.1.len(),
{
    assert(seq![entry].drop_last() =~= Seq::<(Seq<u8>, Seq<u8>)>::empty());
    assert(byte_size(seq![entry].drop_last()) == 0);
}

/// The ordered in-memory table.
pub struct MemTable {
    entries: Vec<(Vec<u8>, Vec<u8>)>,
    size: usize,
}

impl View for MemTable {
    type V = Seq<(Seq<u8>, Seq<u8>)>;

    closed spec fn view(&self) -> Seq<(Seq<u8>, Seq<u8>)> {
        pairs_view(self.entries@)
    }
}

impl MemTable {
    /// The byte count that the table keeps.
    pub closed spec fn tracked_size(&self) -> nat {
        self.size as nat
    }

    /// The table is in order and its byte count is exact: the entries
    /// ascend strictly by key, and the count equals the bytes of all keys
    /// and values held.
    pub open spec fn wf(&self) -> bool {
        sorted(self@) && self.tracked_size() == byte_size(self@)
    }

    /// An empty table.
    pub fn new() -> (table: Self)
        ensures
            table@ == Seq::<(Seq<u8>, Seq<u8>)>::empty(),
            table.wf(),
    {
        let table = MemTable { entries: Vec::new(), size: 0 };
        assert(table@ =~= Seq::empty());
        table
    }

    /// The place of `key`: the index of its entry if it has one, else the
    /// index where its entry would be inserted. Found by halving the range
    /// in which the place can lie.
    fn position(&self, key: &[u8]) -> (at: usize)
        requires
            sorted(self@),
        ensures
            at == rank(self@, key@),
            at <= self@.len(),
    {
        let mut low: usize = 0;
        let mut high: usize = self.entries.len();
        while low < high
            invariant
                low <= high <= self.entries@.len(),
                self@.len() == self.entries@.len(),
                sorted(self@),
                forall|j: int| 0 <= j < low ==> lex_lt((#[trigger] self@[j]).0, key@),
                forall|j: int| high <= j < self@.len() ==> !lex_lt((#[trigger] self@[j]).0, key@),
            decreases high - low,
        {
            let middle = low + (high - low) / 2;
            let ghost pivot = self@[middle as int].0;
            if lex_less(self.entries[middle].0.as_slice(), key) {
                proof {
                    assert forall|j: int| 0 <= j < middle + 1 implies lex_lt(
                        (#[trigger] self@[j]).0,
                        key@,
                    ) by {
                        if j < middle {
                            lemma_lex_lt_transitive(self@[j].0, pivot, key@);
                        }
                    }
                }
                low = middle + 1;
            } else {
                proof {
                    assert forall|j: int| middle <= j < self@.len() implies !lex_lt(
                        (#[trigger] self@[j]).0,
                        key@,
                    ) by {
                        if j > middle && lex_lt(self@[j].0, key@) {
                            lemma_lex_lt_transitive(pivot, self@[j].0, key@);
                        }
                    }
                }
                high = middle;
            }
        }
        proof {
            lemma_rank_is(self@, key@, low as int);
        }
        low
    }

    /// Sets `key` to `value`, replacing the value the key had, if any. The
    /// byte count drops by the entry replaced and grows by the new one.
    pub fn insert(&mut self, key: Vec<u8>, value: Vec<u8>)
        requires
            old(self).wf(),
            byte_size(upsert(old(self)@, key@, value@)) <= usize::MAX,
        ensures
            final(self).wf(),
            final(self)@ == upsert(old(self)@, key@, value@),
            find(final(self)@, key@) == Some(value@),
            forall|other: Seq<u8>| other != key@ ==> find(final(self)@, other) == find(
                old(self)@,
                other,
            ),
    {
        let at = self.position(key.as_slice());
        proof {
            lemma_upsert(self@, key@, value@);
            lemma_byte_size_upsert(self@, key@, value@);
        }
        let ghost before = self@;
        if at < self.entries.len() && bytes_equal(self.entries[at].0.as_slice(), key.as_slice()) {
            self.size = self.size - (key.len() + self.entries[at].1.len());
            self.size = self.size + (key.len() + value.len());
            self.entries.set(at, (key, value));
            assert(self@ =~= before.update(at as int, (key@, value@)));
        } else {
            self.size = self.size + (key.len() + value.len());
            self.entries.insert(at, (key, value));
            assert(self@ =~= before.insert(at as int, (key@, value@)));
        }
    }

    /// The value of `key`, if the table holds it.
    pub fn get(&self, key: &[u8]) -> (value: Option<&Vec<u8>>)
        requires
            self.wf(),
        ensures
            match value {
                Some(v) => find(self@, key@) == Some(v@),
                None => find(self@, key@).is_none(),
            },
    {
        let at = self.position(key);
        proof {
            lemma_find_sorted(self@, key@);
        }
        if at < self.entries.len() && bytes_equal(self.entries[at].0.as_slice(), key) {
            Some(&self.entries[at].1)
        } else {
            None
        }
    }

    /// Whether the table holds `key`.
    pub fn contains_key(&self, key: &[u8]) -> (held: bool)
        requires
            self.wf(),
        ensures
            held == find(self@, key@).is_some(),
    {
        self.get(key).is_some()
    }

    /// Removes `key`, returning the value it had, if any. The byte count
    /// drops by the entry removed.
    pub fn remove(&mut self, key: &[u8]) -> (removed: Option<Vec<u8>>)
        requires
            old(self).wf(),
        ensures
            final(self).wf(),
            final(self)@ == without(old(self)@, key@),
            match removed {
                Some(v) => find(old(self)@, key@) == Some(v@),
                None => find(old(self)@, key@).is_none(),
            },
            find(final(self)@, key@).is_none(),
            forall|other: Seq<u8>| other != key@ ==> find(final(self)@, other) == find(
                old(self)@,
                other,
            ),
    {
        let at = self.position(key);
        proof {
            lemma_find_sorted(self@, key@);
            lemma_without(self@, key@);
            lemma_byte_size_without(self@, key@);
            lemma_byte_size_upsert(self@, key@, Seq::empty());
        }
        let ghost before = self@;
        if at < self.entries.len() && bytes_equal(self.entries[at].0.as_slice(), key) {
            self.size = self.size - (key.len() + self.entries[at].1.len());
            let entry = self.entries.remove(at);
            assert(self@ =~= before.remove(at as int));
            Some(entry.1)
        } else {
            None
        }
    }

    /// Number of entries.
    pub fn len(&self) -> (n: usize)
        ensures
            n == self@.len(),
    {
        self.entries.len()
    }

    /// Whether the table holds no entry.
    pub fn is_empty(&self) -> (empty: bool)
        ensures
            empty == (self@.len() == 0),
    {
        self.entries.len() == 0
    }

    /// The bytes that all keys and values take together.
    pub fn size(&self) -> (n: usize)
        requires
            self.wf(),
        ensures
            n == byte_size(self@),
    {
        self.size
    }

    /// Removes every entry.
    pub fn clear(&mut self)
        ensures
            final(self)@ == Seq::<(Seq<u8>, Seq<u8>)>::empty(),
            final(self).wf(),
    {
        self.entries.clear();
        self.size = 0;
        assert(self@ =~= Seq::empty());
    }

    /// The entries in ascending key order.
    pub fn as_entries(&self) -> (entries: &Vec<(Vec<u8>, Vec<u8>)>)
        ensures
            pairs_view(entries@) == self@,
    {
        &self.entries
    }

    /// A copy of the entries in ascending key order.
    pub fn entries(&self) -> (entries: Vec<(Vec<u8>, Vec<u8>)>)
        ensures
            pairs_view(entries@) == self@,
    {
        let mut entries: Vec<(Vec<u8>, Vec<u8>)> = Vec::new();
        let mut i: usize = 0;
        while i < self.entries.len()
            invariant
                i <= self.entries@.len(),
                entries@.len() == i,
                forall|j: int|
                    0 <= j < i ==> (#[trigger] entries@[j]).0@ == self.entries@[j].0@
                        && entries@[j].1@ == self.entries@[j].1@,
            decreases self.entries@.len() - i,
        {
            let entry = &self.entries[i];
            let key = copy_range(entry.0.as_slice(), 0, entry.0.len());
            let value = copy_range(entry.1.as_slice(), 0, entry.1.len());
            assert(key@ =~= entry.0@);
            assert(value@ =~= entry.1@);
            entries.push((key, value));
            i += 1;
        }
        assert(pairs_view(entries@) =~= self@);
        entries
    }

    /// A copy of the keys in ascending order.
    pub fn keys(&self) -> (keys: Vec<Vec<u8>>)
        ensures
            strings_view(keys@) == keys_of(self@),
    {
        let mut keys: Vec<Vec<u8>> = Vec::new();
        let mut i: usize = 0;
        while i < self.entries.len()
            invariant
                i <= self.entries@.len(),
                keys@.len() == i,
                forall|j: int| 0 <= j < i ==> (#[trigger] keys@[j])@ == self.entries@[j].0@,
            decreases self.entries@.len() - i,
        {
            let entry = &self.entries[i];
            let key = copy_range(entry.0.as_slice(), 0, entry.0.len());
            assert(key@ =~= entry.0@);
            keys.push(key);
            i += 1;
        }
        assert(strings_view(keys@) =~= keys_of(self@));
        keys
    }
}

} // verus!
