//! A Bloom filter over byte-string keys: an approximate set that may answer
//! "possibly present" for a key that was never inserted, and never answers
//! "absent" for one that was.
//!
//! The filter is a bit array of `num_bits` bits and `num_hashes` probe
//! positions per key, derived from two 64-bit FNV-1a hashes by double hashing.

use vstd::prelude::*;
use crate::bytes::{
    copy_range, extend_bytes, lemma_u32_round_trip, push_u32_le, read_u32_le, u32_at, u32_le,
};

verus! {

/// Offset basis of the primary 64-bit FNV-1a hash.
pub const FNV_OFFSET_BASIS: u64 = 14695981039346656037;

/// Offset basis of the secondary hash.
pub const FNV_OFFSET_BASIS_ALT: u64 = 12345678901234567890;

/// The 64-bit FNV prime, shared by both hashes.
pub const FNV_PRIME: u64 = 1099511628211;

/// The smallest bit array a constructor makes.
pub const MIN_BITS: usize = 8;

/// The largest number of probes per key a constructor allows.
pub const MAX_HASHES: usize = 16;

/// Length of the serialized header: three 32-bit fields.
pub const HEADER_LEN: usize = 12;

/// FNV-1a over `key`, started from `basis`: for each byte in turn, xor it
/// into the state and multiply by the prime modulo 2^64.
pub open spec fn fnv1a_fold(basis: u64, key: Seq<u8>) -> u64
    decreases key.len(),
{
    if key.len() == 0 {
        basis
    } else {
        (((fnv1a_fold(basis, key.drop_last()) ^ (key.last() as u64)) as nat * FNV_PRIME as nat)
            % 0x1_0000_0000_0000_0000) as u64
    }
}

/// The primary hash of a key.
pub open spec fn primary_hash(key: Seq<u8>) -> u64 {
    fnv1a_fold(FNV_OFFSET_BASIS, key)
}

/// The secondary hash of a key, the step of the double hashing. Its lowest
/// bit is forced to one, so it is odd and never zero.
pub open spec fn secondary_hash(key: Seq<u8>) -> u64 {
    fnv1a_fold(FNV_OFFSET_BASIS_ALT, key) | 1
}

/// The `i`-th probe position of `key` in an array of `num_bits` bits:
/// `(h1 + i * h2) mod 2^64 mod num_bits`.
pub open spec fn bit_position(key: Seq<u8>, i: nat, num_bits: nat) -> nat
    recommends
        num_bits > 0,
{
    ((primary_hash(key) as nat + i * (secondary_hash(key) as nat)) % 0x1_0000_0000_0000_0000)
        % num_bits
}

/// The number of bits asked for, raised to the minimum of 8.
pub open spec fn clamp_bits(num_bits: nat) -> nat {
    if num_bits < 8 {
        8
    } else {
        num_bits
    }
}

/// The number of probes asked for, brought into the range 1 to 16.
pub open spec fn clamp_hashes(num_hashes: nat) -> nat {
    if num_hashes < 1 {
        1
    } else if num_hashes > 16 {
        16
    } else {
        num_hashes
    }
}

/// Number of bytes that hold `num_bits` bits.
pub open spec fn bytes_for(num_bits: nat) -> nat {
    if num_bits % 8 == 0 {
        num_bits / 8
    } else {
        num_bits / 8 + 1
    }
}

/// Whether bit `index` is set in `bits`. Bit `index` is bit `index % 8`,
/// counted from the least significant, of byte `index / 8`; a bit beyond the
/// array counts as clear.
pub open spec fn bit_is_set(bits: Seq<u8>, index: nat) -> bool {
    index / 8 < bits.len() && (bits[(index / 8) as int] & (1u8 << ((index % 8) as u8))) != 0
}

/// The bit array with bit `index` set; a position beyond the array changes
/// nothing.
pub open spec fn with_bit(bits: Seq<u8>, index: nat) -> Seq<u8> {
    if index / 8 < bits.len() {
        bits.update(
            (index / 8) as int,
            bits[(index / 8) as int] | (1u8 << ((index % 8) as u8)),
        )
    } else {
        bits
    }
}

/// The bit array with the first `count` probe positions of `key` set.
pub open spec fn with_probes(bits: Seq<u8>, key: Seq<u8>, num_bits: nat, count: nat) -> Seq<u8>
    decreases count,
{
    if count == 0 {
        bits
    } else {
        with_bit(
            with_probes(bits, key, num_bits, (count - 1) as nat),
            bit_position(key, (count - 1) as nat, num_bits),
        )
    }
}

/// The mathematical content of a filter.
pub struct BloomFilterView {
    /// The bit array, eight bits to a byte.
    pub bits: Seq<u8>,
    /// Number of bits addressed by the probes.
    pub num_bits: nat,
    /// Number of probes per key.
    pub num_hashes: nat,
    /// Number of insertions made.
    pub num_items: nat,
}

impl BloomFilterView {
    /// The bit array has exactly the bytes that `num_bits` bits need.
    pub open spec fn wf(self) -> bool {
        self.bits.len() == bytes_for(self.num_bits)
    }

    /// The filter with all bits clear and no items.
    pub open spec fn empty(num_bits: nat, num_hashes: nat) -> BloomFilterView {
        BloomFilterView {
            bits: Seq::new(bytes_for(num_bits), |i: int| 0u8),
            num_bits,
            num_hashes,
            num_items: 0,
        }
    }

    /// The empty filter that a constructor makes for the parameters asked
    /// for: at least 8 bits, and from 1 to 16 probes per key.
    pub open spec fn with_params(num_bits: nat, num_hashes: nat) -> BloomFilterView {
        BloomFilterView::empty(clamp_bits(num_bits), clamp_hashes(num_hashes))
    }

    /// Whether the filter answers "possibly present" for `key`: all of the
    /// key's probe positions are set.
    pub open spec fn admits(self, key: Seq<u8>) -> bool {
        forall|i: nat|
            i < self.num_hashes ==> bit_is_set(
                self.bits,
                #[trigger] bit_position(key, i, self.num_bits),
            )
    }

    /// The filter after inserting `key`: every probe position of the key
    /// set, and one more item counted.
    pub open spec fn with_key(self, key: Seq<u8>) -> BloomFilterView {
        BloomFilterView {
            bits: with_probes(self.bits, key, self.num_bits, self.num_hashes),
            num_bits: self.num_bits,
            num_hashes: self.num_hashes,
            num_items: self.num_items + 1,
        }
    }

    /// The filter after inserting `keys` one after another.
    pub open spec fn with_keys(self, keys: Seq<Seq<u8>>) -> BloomFilterView
        decreases keys.len(),
    {
        if keys.len() == 0 {
            self
        } else {
            self.with_keys(keys.drop_last()).with_key(keys.last())
        }
    }

    /// Whether `index` is one of the probe positions of `key`.
    pub open spec fn probes(self, key: Seq<u8>, index: nat) -> bool {
        exists|i: nat|
            i < self.num_hashes && index == #[trigger] bit_position(key, i, self.num_bits)
    }

    /// Whether `next` is this filter after inserting `key`: the same
    /// parameters, one more item, and exactly the bits that were set before
    /// together with the key's probe positions.
    pub open spec fn inserted(self, key: Seq<u8>, next: BloomFilterView) -> bool {
        &&& next.num_bits == self.num_bits
        &&& next.num_hashes == self.num_hashes
        &&& next.num_items == self.num_items + 1
        &&& next.bits.len() == self.bits.len()
        &&& forall|index: nat|
            #[trigger] bit_is_set(next.bits, index) <==> bit_is_set(self.bits, index) || (index / 8
                < self.bits.len() && self.probes(key, index))
    }

    /// The serialized form: the header fields `num_bits`, `num_hashes` and
    /// `num_items`, each reduced modulo 2^32 and written little-endian,
    /// followed by the bit array.
    pub open spec fn to_bytes(self) -> Seq<u8> {
        u32_le((self.num_bits % 0x1_0000_0000) as u32) + u32_le(
            (self.num_hashes % 0x1_0000_0000) as u32,
        ) + u32_le((self.num_items % 0x1_0000_0000) as u32) + self.bits
    }

    /// The filter that a serialized form stands for, if it is long enough:
    /// twelve header bytes and then the bytes its `num_bits` field calls for.
    /// Bytes after those are ignored.
    pub open spec fn from_bytes(data: Seq<u8>) -> Option<BloomFilterView> {
        if data.len() < 12 {
            None
        } else {
            let num_bits = u32_at(data, 0) as nat;
            if data.len() < 12 + bytes_for(num_bits) {
                None
            } else {
                Some(
                    BloomFilterView {
                        bits: data.subrange(12, 12 + bytes_for(num_bits) as int),
                        num_bits,
                        num_hashes: u32_at(data, 4) as nat,
                        num_items: u32_at(data, 8) as nat,
                    },
                )
            }
        }
    }
}

/// Number of set bits among the first `upto` bit positions of `bits`.
pub open spec fn count_set(bits: Seq<u8>, upto: nat) -> nat
    decreases upto,
{
    if upto == 0 {
        0
    } else {
        count_set(bits, (upto - 1) as nat) + if bit_is_set(bits, (upto - 1) as nat) {
            1nat
        } else {
            0nat
        }
    }
}

/// The counts that describe a filter.
#[derive(Clone, Copy, Debug, PartialEq, Eq, Structural)]
pub struct BloomFilterStats {
    /// Number of bits addressed by the probes.
    pub num_bits: usize,
    /// Number of probes per key.
    pub num_hashes: usize,
    /// Number of insertions made.
    pub num_items: usize,
    /// Size of the bit array in bytes.
    pub size_bytes: usize,
    /// Number of bits of the array that are set.
    pub bits_set: usize,
}

/// What deserialization from a stream reports when the stream ends early.
#[derive(Clone, Copy, Debug, PartialEq, Eq, Structural)]
pub enum BloomReadError {
    /// The stream ended before the header or the bit array was complete.
    UnexpectedEof,
}

/// A Bloom filter for set membership of byte-string keys.
pub struct BloomFilter {
    bits: Vec<u8>,
    num_bits: usize,
    num_hashes: usize,
    num_items: usize,
}

impl View for BloomFilter {
    type V = BloomFilterView;

    closed spec fn view(&self) -> BloomFilterView {
        BloomFilterView {
            bits: self.bits@,
            num_bits: self.num_bits as nat,
            num_hashes: self.num_hashes as nat,
            num_items: self.num_items as nat,
        }
    }
}

/// Setting one bit of a byte sets that bit and leaves the others as they were.
proof fn lemma_or_mask(b: u8, set: u8, probe: u8)
    requires
        set < 8,
        probe < 8,
    ensures
        ((b | (1u8 << set)) & (1u8 << probe)) != 0 <==> (b & (1u8 << probe)) != 0 || set == probe,
{
    assert(set < 8 && probe < 8 ==> ((((b | (1u8 << set)) & (1u8 << probe)) != 0) <==> ((b & (1u8
        << probe)) != 0 || set == probe))) by (bit_vector);
}

/// A filter with no bit set and at least one probe per key admits no key.
pub proof fn lemma_empty_admits_nothing(num_bits: nat, num_hashes: nat, key: Seq<u8>)
    requires
        num_hashes >= 1,
    ensures
        !BloomFilterView::empty(num_bits, num_hashes).admits(key),
{
    let filter = BloomFilterView::empty(num_bits, num_hashes);
    let index = bit_position(key, 0, num_bits);
    let offset = (index % 8) as u8;
    assert((0u8 & (1u8 << offset)) == 0) by (bit_vector);
    if index / 8 < filter.bits.len() {
        assert(filter.bits[(index / 8) as int] == 0u8);
    }
    assert(!bit_is_set(filter.bits, index));
    assert(0 < filter.num_hashes && index == bit_position(key, 0, filter.num_bits));
}

/// Setting a bit sets that bit, if it lies within the array, and no other.
pub proof fn lemma_with_bit(bits: Seq<u8>, index: nat)
    ensures
        with_bit(bits, index).len() == bits.len(),
        forall|other: nat|
            #[trigger] bit_is_set(with_bit(bits, index), other) <==> bit_is_set(bits, other) || (
            other == index && index / 8 < bits.len()),
{
    if index / 8 < bits.len() {
        let byte = bits[(index / 8) as int];
        assert forall|other: nat|
            #[trigger] bit_is_set(with_bit(bits, index), other) <==> bit_is_set(bits, other) || (
            other == index && index / 8 < bits.len()) by {
            if other / 8 == index / 8 {
                lemma_or_mask(byte, (index % 8) as u8, (other % 8) as u8);
            }
        }
    }
}

/// Setting the first `count` probe positions of a key sets exactly those
/// bits, as far as they lie within the array, and keeps what was set.
pub proof fn lemma_with_probes(bits: Seq<u8>, key: Seq<u8>, num_bits: nat, count: nat)
    ensures
        with_probes(bits, key, num_bits, count).len() == bits.len(),
        forall|index: nat|
            #[trigger] bit_is_set(with_probes(bits, key, num_bits, count), index) <==> bit_is_set(
                bits,
                index,
            ) || (index / 8 < bits.len() && exists|j: nat|
                j < count && index == #[trigger] bit_position(key, j, num_bits)),
    decreases count,
{
    if count > 0 {
        let last = (count - 1) as nat;
        let prev = with_probes(bits, key, num_bits, last);
        let position = bit_position(key, last, num_bits);
        lemma_with_probes(bits, key, num_bits, last);
        lemma_with_bit(prev, position);
        assert forall|index: nat|
            #[trigger] bit_is_set(with_probes(bits, key, num_bits, count), index) <==> bit_is_set(
                bits,
                index,
            ) || (index / 8 < bits.len() && exists|j: nat|
                j < count && index == #[trigger] bit_position(key, j, num_bits)) by {
            assert(bit_is_set(with_bit(prev, position), index) <==> bit_is_set(prev, index) || (
            index == position && position / 8 < prev.len()));
            assert(position == bit_position(key, last, num_bits));
        }
    }
}

/// Inserting a key keeps the parameters, counts one more item, and sets
/// exactly the key's probe positions on top of the bits set before.
pub proof fn lemma_with_key_inserted(filter: BloomFilterView, key: Seq<u8>)
    ensures
        filter.inserted(key, filter.with_key(key)),
{
    lemma_with_probes(filter.bits, key, filter.num_bits, filter.num_hashes);
}

/// No false negatives: once a key is inserted, the filter admits it, and
/// goes on admitting it whatever is inserted afterwards.
pub proof fn lemma_no_false_negatives(filter: BloomFilterView, key: Seq<u8>, later: Seq<Seq<u8>>)
    requires
        filter.wf(),
        filter.num_bits > 0,
    ensures
        filter.with_key(key).admits(key),
        filter.with_key(key).with_keys(later).admits(key),
    decreases later.len(),
{
    lemma_with_key_inserted(filter, key);
    lemma_inserted_admits(filter, key, filter.with_key(key));
    if later.len() > 0 {
        lemma_no_false_negatives(filter, key, later.drop_last());
        let prev = filter.with_key(key).with_keys(later.drop_last());
        lemma_with_keys_wf(filter.with_key(key), later.drop_last());
        lemma_with_key_inserted(prev, later.last());
        lemma_inserted_admits(prev, later.last(), prev.with_key(later.last()));
    }
}

/// Insertions keep the parameters and the size of the bit array, and count
/// the items.
pub proof fn lemma_with_keys_wf(filter: BloomFilterView, keys: Seq<Seq<u8>>)
    ensures
        filter.with_keys(keys).num_bits == filter.num_bits,
        filter.with_keys(keys).num_hashes == filter.num_hashes,
        filter.with_keys(keys).num_items == filter.num_items + keys.len(),
        filter.with_keys(keys).bits.len() == filter.bits.len(),
        filter.wf() ==> filter.with_keys(keys).wf(),
    decreases keys.len(),
{
    if keys.len() > 0 {
        lemma_with_keys_wf(filter, keys.drop_last());
        let prev = filter.with_keys(keys.drop_last());
        lemma_with_probes(prev.bits, keys.last(), prev.num_bits, prev.num_hashes);
    }
}

/// A filter admits every key that was inserted into it.
pub proof fn lemma_with_keys_admits(filter: BloomFilterView, keys: Seq<Seq<u8>>, i: int)
    requires
        filter.wf(),
        filter.num_bits > 0,
        0 <= i < keys.len(),
    ensures
        filter.with_keys(keys).admits(keys[i]),
    decreases keys.len(),
{
    let prev = filter.with_keys(keys.drop_last());
    lemma_with_keys_wf(filter, keys.drop_last());
    lemma_with_key_inserted(prev, keys.last());
    lemma_inserted_admits(prev, keys.last(), prev.with_key(keys.last()));
    if i < keys.len() - 1 {
        lemma_with_keys_admits(filter, keys.drop_last(), i);
        assert(keys.drop_last()[i] == keys[i]);
    }
}

/// Serializing a filter and reading the bytes back gives the same filter:
/// the same parameters, item count and bits, hence the same answer for
/// every key. Bytes that follow the serialized form do not matter. The
/// three header fields must fit in 32 bits.
pub proof fn lemma_serialization_round_trip(filter: BloomFilterView, trailing: Seq<u8>)
    requires
        filter.wf(),
        filter.num_bits <= u32::MAX,
        filter.num_hashes <= u32::MAX,
        filter.num_items <= u32::MAX,
    ensures
        BloomFilterView::from_bytes(filter.to_bytes() + trailing) == Some(filter),
        forall|key: Seq<u8>|
            BloomFilterView::from_bytes(filter.to_bytes() + trailing).unwrap().admits(key)
                == filter.admits(key),
{
    let m = filter.num_bits as u32;
    let k = filter.num_hashes as u32;
    let n = filter.num_items as u32;
    let data = filter.to_bytes() + trailing;
    let empty = Seq::<u8>::empty();
    assert(data =~= empty + u32_le(m) + (u32_le(k) + u32_le(n) + filter.bits + trailing));
    lemma_u32_round_trip(m, empty, u32_le(k) + u32_le(n) + filter.bits + trailing);
    assert(data =~= u32_le(m) + u32_le(k) + (u32_le(n) + filter.bits + trailing));
    lemma_u32_round_trip(k, u32_le(m), u32_le(n) + filter.bits + trailing);
    assert(data =~= (u32_le(m) + u32_le(k)) + u32_le(n) + (filter.bits + trailing));
    lemma_u32_round_trip(n, u32_le(m) + u32_le(k), filter.bits + trailing);
    assert(data.subrange(12, 12 + bytes_for(filter.num_bits) as int) =~= filter.bits);
}

/// After an insertion the filter admits the inserted key and whatever
/// it admitted before.
pub proof fn lemma_inserted_admits(before: BloomFilterView, key: Seq<u8>, after: BloomFilterView)
    requires
        before.wf(),
        before.num_bits > 0,
        before.inserted(key, after),
    ensures
        after.wf(),
        after.admits(key),
        forall|other: Seq<u8>| before.admits(other) ==> after.admits(other),
{
    assert forall|i: nat| i < after.num_hashes implies bit_is_set(
        after.bits,
        #[trigger] bit_position(key, i, after.num_bits),
    ) by {
        let index = bit_position(key, i, before.num_bits);
        assert(index < before.num_bits);
        assert(before.probes(key, index));
    }
    assert forall|other: Seq<u8>| before.admits(other) implies after.admits(other) by {
        assert forall|i: nat| i < after.num_hashes implies bit_is_set(
            after.bits,
            #[trigger] bit_position(other, i, after.num_bits),
        ) by {
            assert(bit_is_set(before.bits, bit_position(other, i, before.num_bits)));
        }
    }
}

/// Number of bytes that hold `num_bits` bits.
fn byte_len(num_bits: usize) -> (n: usize)
    ensures
        n == bytes_for(num_bits as nat),
{
    if num_bits % 8 == 0 {
        num_bits / 8
    } else {
        num_bits / 8 + 1
    }
}

impl BloomFilter {
    /// Creates an empty filter with the given parameters: `num_bits` raised
    /// to at least 8, `num_hashes` brought into the range 1 to 16.
    pub fn with_params(num_bits: usize, num_hashes: usize) -> (filter: Self)
        ensures
            filter@ == BloomFilterView::with_params(num_bits as nat, num_hashes as nat),
            filter@.wf(),
            filter@.num_bits >= 8,
            1 <= filter@.num_hashes <= 16,
            filter@.num_items == 0,
            forall|key: Seq<u8>| !filter@.admits(key),
    {
        let m: usize = if num_bits < MIN_BITS { MIN_BITS } else { num_bits };
        let k: usize = if num_hashes < 1 {
            1
        } else if num_hashes > MAX_HASHES {
            MAX_HASHES
        } else {
            num_hashes
        };
        let bits: Vec<u8> = vec![0u8; byte_len(m)];
        assert(bits@ =~= Seq::new(bytes_for(m as nat), |i: int| 0u8));
        let filter = BloomFilter { bits, num_bits: m, num_hashes: k, num_items: 0 };
        proof {
            let view = filter@;
            assert forall|key: Seq<u8>| !#[trigger] view.admits(key) by {
                lemma_empty_admits_nothing(m as nat, k as nat, key);
            }
        }
        filter
    }

    /// Inserts a key: sets each of its probe positions and counts the item.
    /// Afterwards the filter admits the key, and every key it admitted before.
    pub fn insert(&mut self, key: &[u8])
        requires
            old(self)@.wf(),
            old(self)@.num_bits > 0,
            old(self)@.num_items < usize::MAX,
        ensures
            final(self)@ == old(self)@.with_key(key@),
            final(self)@.wf(),
            final(self)@.admits(key@),
            forall|other: Seq<u8>| old(self)@.admits(other) ==> final(self)@.admits(other),
    {
        let ghost before = self@;
        let mut i: usize = 0;
        while i < self.num_hashes
            invariant
                i <= self.num_hashes,
                self@.num_bits == before.num_bits,
                self@.num_bits > 0,
                self@.num_hashes == before.num_hashes,
                self@.num_items == before.num_items,
                self@.bits == with_probes(before.bits, key@, before.num_bits, i as nat),
            decreases self.num_hashes - i,
        {
            let bit_index = self.hash(key, i);
            self.set_bit(bit_index);
            i += 1;
        }
        self.num_items += 1;
        proof {
            lemma_with_key_inserted(before, key@);
            lemma_inserted_admits(before, key@, self@);
        }
    }

    /// Whether the key might have been inserted: `false` means that it
    /// certainly was not, `true` that all of its probe positions are set.
    pub fn might_contain(&self, key: &[u8]) -> (admitted: bool)
        requires
            self@.num_bits > 0,
        ensures
            admitted == self@.admits(key@),
    {
        let mut i: usize = 0;
        while i < self.num_hashes
            invariant
                i <= self.num_hashes,
                self@.num_bits > 0,
                forall|j: nat|
                    j < i ==> bit_is_set(
                        self@.bits,
                        #[trigger] bit_position(key@, j, self@.num_bits),
                    ),
            decreases self.num_hashes - i,
        {
            let bit_index = self.hash(key, i);
            if !self.get_bit(bit_index) {
                assert(!bit_is_set(self@.bits, bit_position(key@, i as nat, self@.num_bits)));
                return false;
            }
            i += 1;
        }
        true
    }

    /// The `index`-th probe position of `key`, by double hashing.
    fn hash(&self, key: &[u8], index: usize) -> (position: usize)
        requires
            self@.num_bits > 0,
        ensures
            position == bit_position(key@, index as nat, self@.num_bits),
            position < self@.num_bits,
    {
        let h1 = self.fnv1a_hash(key);
        let h2 = self.fnv1a_hash_variant(key);
        let step: u64 = (index as u64).wrapping_mul(h2);
        let combined: u64 = h1.wrapping_add(step);
        assert(combined == (h1 as nat + (index as nat) * (h2 as nat)) % 0x1_0000_0000_0000_0000)
            by {
            let product = (index as nat) * (h2 as nat);
            assert(step == product % 0x1_0000_0000_0000_0000);
            assert((h1 as nat + product % 0x1_0000_0000_0000_0000) % 0x1_0000_0000_0000_0000 == (
            h1 as nat + product) % 0x1_0000_0000_0000_0000);
        }
        (combined % (self.num_bits as u64)) as usize
    }

    /// The primary hash: 64-bit FNV-1a.
    fn fnv1a_hash(&self, key: &[u8]) -> (h: u64)
        ensures
            h == primary_hash(key@),
    {
        fnv1a_from(FNV_OFFSET_BASIS, key)
    }

    /// The secondary hash: FNV-1a from another basis, made odd.
    fn fnv1a_hash_variant(&self, key: &[u8]) -> (h: u64)
        ensures
            h == secondary_hash(key@),
    {
        fnv1a_from(FNV_OFFSET_BASIS_ALT, key) | 1
    }

    /// Sets the bit at `index`; a position beyond the array is left alone.
    fn set_bit(&mut self, index: usize)
        ensures
            final(self)@.num_bits == old(self)@.num_bits,
            final(self)@.num_hashes == old(self)@.num_hashes,
            final(self)@.num_items == old(self)@.num_items,
            final(self)@.bits == with_bit(old(self)@.bits, index as nat),
    {
        let byte_index = index / 8;
        let bit_offset: u8 = (index % 8) as u8;
        if byte_index < self.bits.len() {
            let byte = self.bits[byte_index];
            self.bits.set(byte_index, byte | (1u8 << bit_offset));
        }
    }

    /// Whether the bit at `index` is set; a position beyond the array is not.
    fn get_bit(&self, index: usize) -> (set: bool)
        ensures
            set == bit_is_set(self@.bits, index as nat),
    {
        let byte_index = index / 8;
        let bit_offset: u8 = (index % 8) as u8;
        if byte_index < self.bits.len() {
            (self.bits[byte_index] & (1u8 << bit_offset)) != 0
        } else {
            false
        }
    }

    /// Number of insertions made.
    pub fn len(&self) -> (n: usize)
        ensures
            n == self@.num_items,
    {
        self.num_items
    }

    /// Whether no insertion was made.
    pub fn is_empty(&self) -> (empty: bool)
        ensures
            empty == (self@.num_items == 0),
    {
        self.num_items == 0
    }

    /// Size of the bit array in bytes.
    pub fn size_bytes(&self) -> (n: usize)
        ensures
            n == self@.bits.len(),
    {
        self.bits.len()
    }

    /// Number of bits addressed by the probes.
    pub fn num_bits(&self) -> (n: usize)
        ensures
            n == self@.num_bits,
    {
        self.num_bits
    }

    /// Number of probes per key.
    pub fn num_hashes(&self) -> (n: usize)
        ensures
            n == self@.num_hashes,
    {
        self.num_hashes
    }

    /// Serializes the filter: the three header fields, then the bit array.
    pub fn to_bytes(&self) -> (bytes: Vec<u8>)
        ensures
            bytes@ == self@.to_bytes(),
    {
        let mut bytes: Vec<u8> = Vec::new();
        push_u32_le(&mut bytes, ((self.num_bits as u64) % 0x1_0000_0000) as u32);
        push_u32_le(&mut bytes, ((self.num_hashes as u64) % 0x1_0000_0000) as u32);
        push_u32_le(&mut bytes, ((self.num_items as u64) % 0x1_0000_0000) as u32);
        extend_bytes(&mut bytes, self.bits.as_slice());
        bytes
    }

    /// Deserializes a filter. Returns `None` exactly when `data` is shorter
    /// than the header, or than the header and the bit array it announces.
    pub fn from_bytes(data: &[u8]) -> (filter: Option<Self>)
        ensures
            match filter {
                Some(f) => BloomFilterView::from_bytes(data@) == Some(f@) && f@.wf(),
                None => BloomFilterView::from_bytes(data@).is_none(),
            },
    {
        if data.len() < HEADER_LEN {
            return None;
        }
        let num_bits = read_u32_le(data, 0) as usize;
        let num_hashes = read_u32_le(data, 4) as usize;
        let num_items = read_u32_le(data, 8) as usize;
        let expected_bytes = byte_len(num_bits);
        if data.len() - HEADER_LEN < expected_bytes {
            return None;
        }
        let bits = copy_range(data, HEADER_LEN, HEADER_LEN + expected_bytes);
        Some(BloomFilter { bits, num_bits, num_hashes, num_items })
    }

    /// Appends the serialized filter to `writer`.
    pub fn write_to(&self, writer: &mut Vec<u8>)
        ensures
            final(writer)@ == old(writer)@ + self@.to_bytes(),
    {
        let bytes = self.to_bytes();
        extend_bytes(writer, bytes.as_slice());
    }

    /// Reads a filter from the start of `reader`. Fails exactly when the
    /// bytes end before the header and the bit array it announces are
    /// complete.
    pub fn read_from(reader: &[u8]) -> (filter: Result<Self, BloomReadError>)
        ensures
            match filter {
                Ok(f) => BloomFilterView::from_bytes(reader@) == Some(f@) && f@.wf(),
                Err(e) => BloomFilterView::from_bytes(reader@).is_none() && e
                    == BloomReadError::UnexpectedEof,
            },
    {
        match BloomFilter::from_bytes(reader) {
            Some(filter) => Ok(filter),
            None => Err(BloomReadError::UnexpectedEof),
        }
    }

    /// The filter's counts, among them the number of set bits.
    pub fn stats(&self) -> (stats: BloomFilterStats)
        requires
            self@.wf(),
            self@.num_bits + 8 <= usize::MAX,
        ensures
            stats.num_bits == self@.num_bits,
            stats.num_hashes == self@.num_hashes,
            stats.num_items == self@.num_items,
            stats.size_bytes == self@.bits.len(),
            stats.bits_set == count_set(self@.bits, 8 * self@.bits.len()),
    {
        let total: usize = self.bits.len() * 8;
        let mut bits_set: usize = 0;
        let mut index: usize = 0;
        while index < total
            invariant
                index <= total,
                total == 8 * self@.bits.len(),
                bits_set == count_set(self@.bits, index as nat),
                bits_set <= index,
            decreases total - index,
        {
            if self.get_bit(index) {
                bits_set += 1;
            }
            index += 1;
        }
        BloomFilterStats {
            num_bits: self.num_bits,
            num_hashes: self.num_hashes,
            num_items: self.num_items,
            size_bytes: self.bits.len(),
            bits_set,
        }
    }
}

impl Clone for BloomFilter {
    /// An independent copy with the same content.
    fn clone(&self) -> (copy: Self)
        ensures
            copy@ == self@,
    {
        let bits = copy_range(self.bits.as_slice(), 0, self.bits.len());
        assert(bits@ =~= self.bits@);
        BloomFilter {
            bits,
            num_bits: self.num_bits,
            num_hashes: self.num_hashes,
            num_items: self.num_items,
        }
    }
}

/// FNV-1a over `key`, started from `basis`.
fn fnv1a_from(basis: u64, key: &[u8]) -> (h: u64)
    ensures
        h == fnv1a_fold(basis, key@),
{
    let mut hash: u64 = basis;
    let mut i: usize = 0;
    while i < key.len()
        invariant
            i <= key@.len(),
            hash == fnv1a_fold(basis, key@.subrange(0, i as int)),
        decreases key@.len() - i,
    {
        let ghost prefix = key@.subrange(0, i as int);
        hash = (hash ^ (key[i] as u64)).wrapping_mul(FNV_PRIME);
        i += 1;
        assert(key@.subrange(0, i as int).drop_last() =~= prefix);
    }
    assert(key@.subrange(0, i as int) =~= key@);
    hash
}

} // verus!
