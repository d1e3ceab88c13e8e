//! Length-prefixed framing shared by the table files and the log: a chunk is
//! a little-endian 32-bit length followed by that many bytes, and a pair is
//! a key chunk followed by a value chunk.

use vstd::prelude::*;
use crate::bytes::{
    copy_range, extend_bytes, lemma_u32_at_skip, lemma_u32_round_trip, push_u32_le, read_u32_le,
    u32_at, u32_le,
};

verus! {

/// The chunk at the front of `s`: its bytes and the number of bytes it
/// takes, or `None` where `s` ends before the chunk is complete.
pub open spec fn chunk_at(s: Seq<u8>) -> Option<(Seq<u8>, nat)> {
    if s.len() < 4 {
        None
    } else {
        let n = u32_at(s, 0) as nat;
        if s.len() < 4 + n {
            None
        } else {
            Some((s.subrange(4, 4 + n as int), 4 + n))
        }
    }
}

/// A chunk holding `bytes`, whose length must fit in 32 bits.
pub open spec fn chunk_bytes(bytes: Seq<u8>) -> Seq<u8> {
    u32_le(bytes.len() as u32) + bytes
}

/// The key and value at the front of `s` and the number of bytes they take
/// together, or `None` where `s` ends before both are complete.
pub open spec fn pair_at(s: Seq<u8>) -> Option<(Seq<u8>, Seq<u8>, nat)> {
    match chunk_at(s) {
        None => None,
        Some((key, key_end)) => match chunk_at(s.skip(key_end as int)) {
            None => None,
            Some((value, value_len)) => Some((key, value, key_end + value_len)),
        },
    }
}

/// A key chunk followed by a value chunk.
pub open spec fn pair_bytes(key: Seq<u8>, value: Seq<u8>) -> Seq<u8> {
    chunk_bytes(key) + chunk_bytes(value)
}

/// A chunk that was read takes four bytes more than it holds, and no more
/// than there are.
pub proof fn lemma_chunk_at_len(s: Seq<u8>)
    requires
        chunk_at(s).is_some(),
    ensures
        chunk_at(s).unwrap().1 == 4 + chunk_at(s).unwrap().0.len(),
        chunk_at(s).unwrap().1 <= s.len(),
        chunk_at(s).unwrap().0.len() <= u32::MAX,
{
}

/// A pair that was read takes eight bytes more than its key and value
/// hold, and no more than there are.
pub proof fn lemma_pair_at_len(s: Seq<u8>)
    requires
        pair_at(s).is_some(),
    ensures
        pair_at(s).unwrap().2 == 8 + pair_at(s).unwrap().0.len() + pair_at(s).unwrap().1.len(),
        pair_at(s).unwrap().2 <= s.len(),
        pair_at(s).unwrap().0.len() <= u32::MAX,
        pair_at(s).unwrap().1.len() <= u32::MAX,
{
    let key_end = chunk_at(s).unwrap().1;
    lemma_chunk_at_len(s);
    lemma_chunk_at_len(s.skip(key_end as int));
}

/// Reading a chunk that was written gives back its bytes, whatever follows.
pub proof fn lemma_chunk_round_trip(bytes: Seq<u8>, rest: Seq<u8>)
    requires
        bytes.len() <= u32::MAX,
    ensures
        chunk_bytes(bytes).len() == 4 + bytes.len(),
        chunk_at(chunk_bytes(bytes) + rest) == Some((bytes, 4 + bytes.len())),
        (chunk_bytes(bytes) + rest).skip((4 + bytes.len()) as int) == rest,
{
    let s = chunk_bytes(bytes) + rest;
    lemma_u32_round_trip(bytes.len() as u32, Seq::empty(), bytes + rest);
    assert(s =~= Seq::<u8>::empty() + u32_le(bytes.len() as u32) + (bytes + rest));
    assert(s.subrange(4, (4 + bytes.len()) as int) =~= bytes);
    assert(s.skip((4 + bytes.len()) as int) =~= rest);
}

/// Reading a pair that was written gives back its key and value, whatever
/// follows.
pub proof fn lemma_pair_round_trip(key: Seq<u8>, value: Seq<u8>, rest: Seq<u8>)
    requires
        key.len() <= u32::MAX,
        value.len() <= u32::MAX,
    ensures
        pair_bytes(key, value).len() == 8 + key.len() + value.len(),
        pair_at(pair_bytes(key, value) + rest) == Some(
            (key, value, 8 + key.len() + value.len()),
        ),
        (pair_bytes(key, value) + rest).skip((8 + key.len() + value.len()) as int) == rest,
{
    let s = pair_bytes(key, value) + rest;
    lemma_chunk_round_trip(key, chunk_bytes(value) + rest);
    lemma_chunk_round_trip(value, rest);
    assert(s =~= chunk_bytes(key) + (chunk_bytes(value) + rest));
    assert(s.skip((8 + key.len() + value.len()) as int) =~= s.skip((4 + key.len()) as int).skip(
        (4 + value.len()) as int,
    ));
}

/// A chunk that is complete stays the same when bytes are appended.
pub proof fn lemma_chunk_at_extend(s: Seq<u8>, more: Seq<u8>)
    requires
        chunk_at(s).is_some(),
    ensures
        chunk_at(s + more) == chunk_at(s),
{
    let n = u32_at(s, 0) as nat;
    lemma_u32_at_skip(s, 0);
    lemma_u32_at_skip(s + more, 0);
    assert((s + more).skip(0).take(4) =~= s.skip(0).take(4));
    assert((s + more).subrange(4, 4 + n as int) =~= s.subrange(4, 4 + n as int));
}

/// A pair that is complete stays the same when bytes are appended.
pub proof fn lemma_pair_at_extend(s: Seq<u8>, more: Seq<u8>)
    requires
        pair_at(s).is_some(),
    ensures
        pair_at(s + more) == pair_at(s),
{
    let key_end = chunk_at(s).unwrap().1;
    lemma_chunk_at_len(s);
    lemma_chunk_at_extend(s, more);
    lemma_chunk_at_extend(s.skip(key_end as int), more);
    assert((s + more).skip(key_end as int) =~= s.skip(key_end as int) + more);
}

/// Reads the chunk that starts at `pos`. Returns its bytes and the position
/// just after it, or `None` where the data ends first.
pub fn read_chunk(data: &[u8], pos: usize) -> (chunk: Option<(Vec<u8>, usize)>)
    requires
        pos <= data@.len(),
    ensures
        match chunk {
            Some((bytes, next)) => chunk_at(data@.skip(pos as int)) == Some(
                (bytes@, (next - pos) as nat),
            ) && pos <= next <= data@.len(),
            None => chunk_at(data@.skip(pos as int)).is_none(),
        },
{
    if data.len() - pos < 4 {
        return None;
    }
    proof {
        lemma_u32_at_skip(data@, pos as int);
    }
    let n = read_u32_le(data, pos) as usize;
    if data.len() - pos - 4 < n {
        return None;
    }
    let bytes = copy_range(data, pos + 4, pos + 4 + n);
    assert(data@.skip(pos as int).subrange(4, 4 + n as int) =~= bytes@);
    Some((bytes, pos + 4 + n))
}

/// Reads the key and value that start at `pos`. Returns them and the
/// position just after them, or `None` where the data ends first.
pub fn read_pair(data: &[u8], pos: usize) -> (pair: Option<(Vec<u8>, Vec<u8>, usize)>)
    requires
        pos <= data@.len(),
    ensures
        match pair {
            Some((key, value, next)) => pair_at(data@.skip(pos as int)) == Some(
                (key@, value@, (next - pos) as nat),
            ) && pos <= next <= data@.len(),
            None => pair_at(data@.skip(pos as int)).is_none(),
        },
{
    match read_chunk(data, pos) {
        None => None,
        Some((key, key_end)) => {
            assert(data@.skip(pos as int).skip(key_end - pos) =~= data@.skip(key_end as int));
            match read_chunk(data, key_end) {
                None => None,
                Some((value, next)) => Some((key, value, next)),
            }
        },
    }
}

/// Appends a key chunk and a value chunk to `out`.
pub fn write_pair(out: &mut Vec<u8>, key: &[u8], value: &[u8])
    requires
        key@.len() <= u32::MAX,
        value@.len() <= u32::MAX,
    ensures
        final(out)@ == old(out)@ + pair_bytes(key@, value@),
{
    push_u32_le(out, key.len() as u32);
    extend_bytes(out, key);
    push_u32_le(out, value.len() as u32);
    extend_bytes(out, value);
    assert(out@ =~= old(out)@ + pair_bytes(key@, value@));
}

} // verus!
