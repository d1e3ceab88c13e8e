//! The sorted-table file format: a plain concatenation of key/value pairs,
//! each key and value prefixed by its little-endian 32-bit length. There is
//! no header and no index; a table is read front to back.

use vstd::prelude::*;
use crate::bytes::{bytes_equal, pairs_view, strings_view};
use crate::record::{
    chunk_at, lemma_chunk_at_len, lemma_pair_at_len, lemma_pair_round_trip, pair_at, pair_bytes,
    read_chunk, read_pair, write_pair,
};

verus! {

/// The pairs held by a table image, in file order. Reading stops at the
/// first place where the image ends inside a pair; what was read up to
/// there stands.
pub open spec fn decode(s: Seq<u8>) -> Seq<(Seq<u8>, Seq<u8>)>
    decreases s.len(),
    via decode_decreases
{
    match pair_at(s) {
        None => Seq::empty(),
        Some((key, value, n)) => seq![(key, value)] + decode(s.skip(n as int)),
    }
}

#[via_fn]
proof fn decode_decreases(s: Seq<u8>) {
    if pair_at(s).is_some() {
        lemma_pair_at_len(s);
    }
}

/// The keys met when a table image is read front to back. A key whose
/// value is cut off by the end of the image still counts.
pub open spec fn scan_keys(s: Seq<u8>) -> Seq<Seq<u8>>
    decreases s.len(),
    via scan_keys_decreases
{
    match chunk_at(s) {
        None => Seq::empty(),
        Some((key, key_end)) => match chunk_at(s.skip(key_end as int)) {
            None => seq![key],
            Some((value, value_len)) => seq![key] + scan_keys(
                s.skip(key_end as int).skip(value_len as int),
            ),
        },
    }
}

#[via_fn]
proof fn scan_keys_decreases(s: Seq<u8>) {
    if chunk_at(s).is_some() {
        lemma_chunk_at_len(s);
        let key_end = chunk_at(s).unwrap().1;
        if chunk_at(s.skip(key_end as int)).is_some() {
            lemma_chunk_at_len(s.skip(key_end as int));
        }
    }
}

/// The image of a table that holds `entries` in this order.
pub open spec fn encode(entries: Seq<(Seq<u8>, Seq<u8>)>) -> Seq<u8>
    decreases entries.len(),
{
    if entries.len() == 0 {
        Seq::empty()
    } else {
        pair_bytes(entries[0].0, entries[0].1) + encode(entries.drop_first())
    }
}

/// Every key and value is short enough for its 32-bit length field.
pub open spec fn fits(entries: Seq<(Seq<u8>, Seq<u8>)>) -> bool {
    forall|i: int|
        0 <= i < entries.len() ==> (#[trigger] entries[i]).0.len() <= u32::MAX && entries[i].1.len()
            <= u32::MAX
}

/// The value of the first pair with the given key, if there is one.
pub open spec fn find(entries: Seq<(Seq<u8>, Seq<u8>)>, key: Seq<u8>) -> Option<Seq<u8>>
    decreases entries.len(),
{
    if entries.len() == 0 {
        None
    } else if entries[0].0 == key {
        Some(entries[0].1)
    } else {
        find(entries.drop_first(), key)
    }
}

/// The keys of a sequence of pairs, in order.
pub open spec fn keys_of(entries: Seq<(Seq<u8>, Seq<u8>)>) -> Seq<Seq<u8>> {
    Seq::new(entries.len(), |i: int| entries[i].0)
}

/// Writing a table and reading it back gives exactly the pairs written, in
/// the same order, byte for byte.
pub proof fn lemma_round_trip(entries: Seq<(Seq<u8>, Seq<u8>)>)
    requires
        fits(entries),
    ensures
        decode(encode(entries)) == entries,
    decreases entries.len(),
{
    if entries.len() > 0 {
        let rest = entries.drop_first();
        assert(fits(rest)) by {
            assert forall|i: int| 0 <= i < rest.len() implies (#[trigger] rest[i]).0.len()
                <= u32::MAX && rest[i].1.len() <= u32::MAX by {
                assert(rest[i] == entries[i + 1]);
            }
        }
        lemma_round_trip(rest);
        lemma_pair_round_trip(entries[0].0, entries[0].1, encode(rest));
        assert(seq![entries[0]] + rest =~= entries);
    }
}

/// Appending a pair to a table appends its bytes to the image.
pub proof fn lemma_encode_push(entries: Seq<(Seq<u8>, Seq<u8>)>, pair: (Seq<u8>, Seq<u8>))
    ensures
        encode(entries.push(pair)) == encode(entries) + pair_bytes(pair.0, pair.1),
    decreases entries.len(),
{
    if entries.len() == 0 {
        assert(entries.push(pair).drop_first() =~= entries);
        assert(encode(entries.push(pair)) =~= encode(entries) + pair_bytes(pair.0, pair.1));
    } else {
        lemma_encode_push(entries.drop_first(), pair);
        assert(entries.push(pair).drop_first() =~= entries.drop_first().push(pair));
        assert(encode(entries.push(pair)) =~= encode(entries) + pair_bytes(pair.0, pair.1));
    }
}

/// A scan for keys meets the key of every pair that a full read returns,
/// at the same place.
pub proof fn lemma_scan_keys_cover(s: Seq<u8>, i: int)
    requires
        0 <= i < decode(s).len(),
    ensures
        i < scan_keys(s).len(),
        scan_keys(s)[i] == decode(s)[i].0,
    decreases s.len(),
{
    lemma_pair_at_len(s);
    let (key, value, n) = pair_at(s).unwrap();
    let key_end = chunk_at(s).unwrap().1;
    let value_len = chunk_at(s.skip(key_end as int)).unwrap().1;
    assert(s.skip(key_end as int).skip(value_len as int) =~= s.skip(n as int));
    if i > 0 {
        lemma_scan_keys_cover(s.skip(n as int), i - 1);
    }
}

/// A key that `find` reports stands in the sequence with that value, and
/// no pair before it has the key; a key it does not report stands nowhere.
pub proof fn lemma_find(entries: Seq<(Seq<u8>, Seq<u8>)>, key: Seq<u8>)
    ensures
        match find(entries, key) {
            Some(value) => exists|i: int|
                0 <= i < entries.len() && (#[trigger] entries[i]).0 == key && entries[i].1 == value
                    && forall|j: int| 0 <= j < i ==> (#[trigger] entries[j]).0 != key,
            None => forall|i: int| 0 <= i < entries.len() ==> (#[trigger] entries[i]).0 != key,
        },
    decreases entries.len(),
{
    if entries.len() > 0 && entries[0].0 != key {
        let rest = entries.drop_first();
        lemma_find(rest, key);
        match find(rest, key) {
            Some(value) => {
                let i = choose|i: int|
                    0 <= i < rest.len() && (#[trigger] rest[i]).0 == key && rest[i].1 == value
                        && forall|j: int| 0 <= j < i ==> (#[trigger] rest[j]).0 != key;
                assert(entries[i + 1] == rest[i]);
                assert forall|j: int| 0 <= j < i + 1 implies (#[trigger] entries[j]).0 != key by {
                    if j > 0 {
                        assert(entries[j] == rest[j - 1]);
                    }
                }
            },
            None => {
                assert forall|i: int| 0 <= i < entries.len() implies (#[trigger] entries[i]).0
                    != key by {
                    if i > 0 {
                        assert(entries[i] == rest[i - 1]);
                    }
                }
            },
        }
    } else if entries.len() > 0 {
        assert(entries[0].0 == key);
    }
}

/// Serializes pairs into a table image, in the order given.
pub fn write_entries(entries: &Vec<(Vec<u8>, Vec<u8>)>) -> (image: Vec<u8>)
    requires
        fits(pairs_view(entries@)),
    ensures
        image@ == encode(pairs_view(entries@)),
{
    let ghost pairs = pairs_view(entries@);
    let mut image: Vec<u8> = Vec::new();
    let mut i: usize = 0;
    while i < entries.len()
        invariant
            i <= entries.len(),
            pairs == pairs_view(entries@),
            pairs.len() == entries.len(),
            fits(pairs),
            image@ == encode(pairs.take(i as int)),
        decreases entries.len() - i,
    {
        let entry = &entries[i];
        assert(pairs[i as int] == (entry.0@, entry.1@));
        write_pair(&mut image, entry.0.as_slice(), entry.1.as_slice());
        proof {
            lemma_encode_push(pairs.take(i as int), pairs[i as int]);
            assert(pairs.take(i + 1) =~= pairs.take(i as int).push(pairs[i as int]));
        }
        i += 1;
    }
    assert(pairs.take(i as int) =~= pairs);
    image
}

/// Reads all pairs of a table image, in file order.
pub fn read_entries(data: &[u8]) -> (entries: Vec<(Vec<u8>, Vec<u8>)>)
    ensures
        pairs_view(entries@) == decode(data@),
{
    let mut entries: Vec<(Vec<u8>, Vec<u8>)> = Vec::new();
    let mut pos: usize = 0;
    assert(data@.skip(0) =~= data@);
    assert(pairs_view(entries@) =~= Seq::empty());
    loop
        invariant
            pos <= data@.len(),
            decode(data@) == pairs_view(entries@) + decode(data@.skip(pos as int)),
        ensures
            pairs_view(entries@) == decode(data@),
        decreases data@.len() - pos,
    {
        let ghost before = pairs_view(entries@);
        match read_pair(data, pos) {
            None => {
                assert(pairs_view(entries@) + Seq::empty() =~= pairs_view(entries@));
                break ;
            },
            Some((key, value, next)) => {
                proof {
                    lemma_pair_at_len(data@.skip(pos as int));
                    assert(data@.skip(pos as int).skip(next - pos) =~= data@.skip(next as int));
                }
                let ghost pair = (key@, value@);
                entries.push((key, value));
                assert(pairs_view(entries@) =~= before.push(pair));
                assert(before.push(pair) + decode(data@.skip(next as int)) =~= before + (seq![pair]
                    + decode(data@.skip(next as int))));
                pos = next;
            },
        }
    }
    entries
}

/// Looks a key up in a table image by reading it front to back: the value
/// of the first pair with that key, or `None` where no pair has it.
pub fn lookup(data: &[u8], key: &[u8]) -> (value: Option<Vec<u8>>)
    ensures
        match value {
            Some(v) => find(decode(data@), key@) == Some(v@),
            None => find(decode(data@), key@).is_none(),
        },
{
    let mut pos: usize = 0;
    assert(data@.skip(0) =~= data@);
    loop
        invariant
            pos <= data@.len(),
            find(decode(data@), key@) == find(decode(data@.skip(pos as int)), key@),
        decreases data@.len() - pos,
    {
        match read_pair(data, pos) {
            None => {
                return None;
            },
            Some((found, value, next)) => {
                proof {
                    lemma_pair_at_len(data@.skip(pos as int));
                    assert(data@.skip(pos as int).skip(next - pos) =~= data@.skip(next as int));
                    let rest = decode(data@.skip(next as int));
                    assert((seq![(found@, value@)] + rest).drop_first() =~= rest);
                }
                if bytes_equal(found.as_slice(), key) {
                    return Some(value);
                }
                pos = next;
            },
        }
    }
}

/// Collects the keys of a table image by reading it front to back. A key
/// whose value is cut off by the end of the image is still collected.
pub fn read_keys(data: &[u8]) -> (keys: Vec<Vec<u8>>)
    ensures
        strings_view(keys@) == scan_keys(data@),
{
    let mut keys: Vec<Vec<u8>> = Vec::new();
    let mut pos: usize = 0;
    assert(data@.skip(0) =~= data@);
    assert(strings_view(keys@) =~= Seq::empty());
    loop
        invariant_except_break
            scan_keys(data@) == strings_view(keys@) + scan_keys(data@.skip(pos as int)),
        invariant
            pos <= data@.len(),
        ensures
            strings_view(keys@) == scan_keys(data@),
        decreases data@.len() - pos,
    {
        let ghost before = strings_view(keys@);
        let ghost tail = data@.skip(pos as int);
        match read_chunk(data, pos) {
            None => {
                assert(before + Seq::empty() =~= before);
                break ;
            },
            Some((key, key_end)) => {
                proof {
                    lemma_chunk_at_len(tail);
                    assert(tail.skip(key_end - pos) =~= data@.skip(key_end as int));
                }
                let ghost found = key@;
                keys.push(key);
                assert(strings_view(keys@) =~= before.push(found));
                match read_chunk(data, key_end) {
                    None => {
                        assert(before + seq![found] =~= before.push(found));
                        break ;
                    },
                    Some((value, next)) => {
                        proof {
                            lemma_chunk_at_len(data@.skip(key_end as int));
                            assert(data@.skip(key_end as int).skip(next - key_end) =~= data@.skip(
                                next as int,
                            ));
                            assert(before.push(found) + scan_keys(data@.skip(next as int))
                                =~= before + (seq![found] + scan_keys(data@.skip(next as int))));
                        }
                        pos = next;
                    },
                }
            },
        }
    }
    keys
}

} // verus!
