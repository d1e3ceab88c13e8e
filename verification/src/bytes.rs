//! Byte-sequence helpers shared by the on-disk formats: little-endian
//! 32-bit fields, copying, equality and the byte-lexicographic order of keys.

use vstd::prelude::*;

verus! {

/// The four bytes of `x`, least significant first.
#[verifier::opaque]
pub open spec fn u32_le(x: u32) -> Seq<u8> {
    seq![
        (x % 0x100) as u8,
        ((x / 0x100) % 0x100) as u8,
        ((x / 0x1_0000) % 0x100) as u8,
        ((x / 0x100_0000) % 0x100) as u8,
    ]
}

/// The number whose little-endian bytes are `s[at..at + 4]`.
#[verifier::opaque]
pub open spec fn u32_at(s: Seq<u8>, at: int) -> u32
    recommends
        0 <= at,
        at + 4 <= s.len(),
{
    (s[at] as int + s[at + 1] as int * 0x100 + s[at + 2] as int * 0x1_0000 + s[at + 3] as int
        * 0x100_0000) as u32
}

/// Reading back a field that was just written gives the number written,
/// whatever surrounds it.
pub proof fn lemma_u32_round_trip(x: u32, before: Seq<u8>, after: Seq<u8>)
    ensures
        u32_le(x).len() == 4,
        u32_at(before + u32_le(x) + after, before.len() as int) == x,
{
    reveal(u32_le);
    reveal(u32_at);
    let s = before + u32_le(x) + after;
    let at = before.len() as int;
    assert(s[at] == u32_le(x)[0]);
    assert(s[at + 1] == u32_le(x)[1]);
    assert(s[at + 2] == u32_le(x)[2]);
    assert(s[at + 3] == u32_le(x)[3]);
}

/// A field is read from the four bytes at its place alone: reading at `at`
/// is reading at the front of what starts there, however far that goes.
pub proof fn lemma_u32_at_skip(s: Seq<u8>, at: int)
    requires
        0 <= at,
        at + 4 <= s.len(),
    ensures
        u32_at(s, at) == u32_at(s.skip(at), 0),
        u32_at(s, at) == u32_at(s.skip(at).take(4), 0),
{
    reveal(u32_at);
}

/// The byte strings held by a sequence of vectors.
pub open spec fn strings_view(v: Seq<Vec<u8>>) -> Seq<Seq<u8>> {
    Seq::new(v.len(), |i: int| v[i]@)
}

/// The key/value pairs held by a sequence of pairs of vectors.
pub open spec fn pairs_view(v: Seq<(Vec<u8>, Vec<u8>)>) -> Seq<(Seq<u8>, Seq<u8>)> {
    Seq::new(v.len(), |i: int| (v[i].0@, v[i].1@))
}

/// Appends the little-endian bytes of `x` to `out`.
pub fn push_u32_le(out: &mut Vec<u8>, x: u32)
    ensures
        final(out)@ == old(out)@ + u32_le(x),
{
    reveal(u32_le);
    out.push((x % 0x100) as u8);
    out.push(((x / 0x100) % 0x100) as u8);
    out.push(((x / 0x1_0000) % 0x100) as u8);
    out.push(((x / 0x100_0000) % 0x100) as u8);
    assert(out@ =~= old(out)@ + u32_le(x));
}

/// Reads the little-endian 32-bit field that starts at `at`.
pub fn read_u32_le(data: &[u8], at: usize) -> (x: u32)
    requires
        at + 4 <= data@.len(),
    ensures
        x == u32_at(data@, at as int),
{
    reveal(u32_at);
    let b0: u32 = data[at] as u32;
    let b1: u32 = data[at + 1] as u32;
    let b2: u32 = data[at + 2] as u32;
    let b3: u32 = data[at + 3] as u32;
    b0 + b1 * 0x100 + b2 * 0x1_0000 + b3 * 0x100_0000
}

/// Appends a copy of `src` to `out`.
pub fn extend_bytes(out: &mut Vec<u8>, src: &[u8])
    ensures
        final(out)@ == old(out)@ + src@,
{
    let mut i: usize = 0;
    while i < src.len()
        invariant
            i <= src@.len(),
            out@ == old(out)@ + src@.subrange(0, i as int),
        decreases src@.len() - i,
    {
        out.push(src[i]);
        i += 1;
        assert(out@ =~= old(out)@ + src@.subrange(0, i as int));
    }
    assert(src@.subrange(0, i as int) =~= src@);
}

/// A fresh copy of `data[start..end]`.
pub fn copy_range(data: &[u8], start: usize, end: usize) -> (out: Vec<u8>)
    requires
        start <= end,
        end <= data@.len(),
    ensures
        out@ == data@.subrange(start as int, end as int),
{
    let mut out: Vec<u8> = Vec::new();
    let mut i: usize = start;
    while i < end
        invariant
            start <= i <= end,
            end <= data@.len(),
            out@ == data@.subrange(start as int, i as int),
        decreases end - i,
    {
        out.push(data[i]);
        i += 1;
        assert(out@ =~= data@.subrange(start as int, i as int));
    }
    out
}

/// Whether two byte strings hold the same bytes.
pub fn bytes_equal(a: &[u8], b: &[u8]) -> (same: bool)
    ensures
        same <==> a@ == b@,
{
    if a.len() != b.len() {
        return false;
    }
    let mut i: usize = 0;
    while i < a.len()
        invariant
            i <= a@.len(),
            a@.len() == b@.len(),
            forall|j: int| 0 <= j < i ==> a@[j] == b@[j],
        decreases a@.len() - i,
    {
        if a[i] != b[i] {
            return false;
        }
        i += 1;
    }
    assert(a@ =~= b@);
    true
}

/// Byte-lexicographic order: `a` sorts strictly before `b` when, at the
/// first place where they differ, `a` has ended or holds the smaller byte.
pub open spec fn lex_lt(a: Seq<u8>, b: Seq<u8>) -> bool {
    exists|i: int| #[trigger] lex_lt_at(a, b, i)
}

/// `a` and `b` agree on their first `i` bytes, and at `i` the string `a`
/// has ended while `b` goes on, or holds the smaller byte.
pub open spec fn lex_lt_at(a: Seq<u8>, b: Seq<u8>, i: int) -> bool {
    &&& 0 <= i <= a.len()
    &&& i < b.len()
    &&& a.subrange(0, i) == b.subrange(0, i)
    &&& (i == a.len() || a[i] < b[i])
}

/// No byte string sorts before itself.
pub proof fn lemma_lex_lt_irreflexive(a: Seq<u8>)
    ensures
        !lex_lt(a, a),
{
    assert forall|i: int| !#[trigger] lex_lt_at(a, a, i) by {}
}

/// Of two byte strings exactly one of these holds: the first sorts before
/// the second, they are equal, or the second sorts before the first.
pub proof fn lemma_lex_lt_trichotomy(a: Seq<u8>, b: Seq<u8>)
    ensures
        lex_lt(a, b) || a == b || lex_lt(b, a),
        !(lex_lt(a, b) && a == b),
        !(lex_lt(b, a) && a == b),
        !(lex_lt(a, b) && lex_lt(b, a)),
{
    lemma_lex_lt_irreflexive(a);
    if lex_lt(a, b) && lex_lt(b, a) {
        let i = choose|i: int| #[trigger] lex_lt_at(a, b, i);
        let j = choose|j: int| #[trigger] lex_lt_at(b, a, j);
        if i < j {
            assert(a.subrange(0, j)[i] == b.subrange(0, j)[i]);
        } else if j < i {
            assert(a.subrange(0, i)[j] == b.subrange(0, i)[j]);
        }
    }
    assert(a.subrange(0, 0) =~= b.subrange(0, 0));
    lemma_first_difference(a, b, 0);
}

/// From a common prefix of length `n` on, two byte strings either differ
/// somewhere, which orders them, or are equal.
proof fn lemma_first_difference(a: Seq<u8>, b: Seq<u8>, n: int)
    requires
        0 <= n <= a.len(),
        n <= b.len(),
        a.subrange(0, n) == b.subrange(0, n),
    ensures
        lex_lt(a, b) || a == b || lex_lt(b, a),
    decreases a.len() - n,
{
    if n == a.len() && n == b.len() {
        assert(a =~= a.subrange(0, n));
        assert(b =~= b.subrange(0, n));
    } else if n == a.len() {
        assert(lex_lt_at(a, b, n));
    } else if n == b.len() {
        assert(lex_lt_at(b, a, n));
    } else if a[n] < b[n] {
        assert(lex_lt_at(a, b, n));
    } else if b[n] < a[n] {
        assert(lex_lt_at(b, a, n));
    } else {
        assert(a.subrange(0, n + 1) =~= a.subrange(0, n).push(a[n]));
        assert(b.subrange(0, n + 1) =~= b.subrange(0, n).push(b[n]));
        lemma_first_difference(a, b, n + 1);
    }
}

/// The order is transitive.
pub proof fn lemma_lex_lt_transitive(a: Seq<u8>, b: Seq<u8>, c: Seq<u8>)
    requires
        lex_lt(a, b),
        lex_lt(b, c),
    ensures
        lex_lt(a, c),
{
    let i = choose|i: int| #[trigger] lex_lt_at(a, b, i);
    let j = choose|j: int| #[trigger] lex_lt_at(b, c, j);
    let k = if i <= j { i } else { j };
    assert(a.subrange(0, k) =~= a.subrange(0, i).subrange(0, k));
    assert(b.subrange(0, k) =~= b.subrange(0, i).subrange(0, k));
    assert(b.subrange(0, k) =~= b.subrange(0, j).subrange(0, k));
    assert(c.subrange(0, k) =~= c.subrange(0, j).subrange(0, k));
    if j < i {
        assert(a.subrange(0, i)[j] == b.subrange(0, i)[j]);
    } else if i < j {
        assert(b.subrange(0, j)[i] == c.subrange(0, j)[i]);
    }
    assert(lex_lt_at(a, c, k));
}

/// Whether `a` sorts strictly before `b` in byte-lexicographic order.
pub fn lex_less(a: &[u8], b: &[u8]) -> (less: bool)
    ensures
        less <==> lex_lt(a@, b@),
{
    let mut i: usize = 0;
    while i < a.len() && i < b.len()
        invariant
            i <= a@.len(),
            i <= b@.len(),
            a@.subrange(0, i as int) == b@.subrange(0, i as int),
        decreases a@.len() - i,
    {
        if a[i] < b[i] {
            assert(lex_lt_at(a@, b@, i as int));
            return true;
        }
        if a[i] > b[i] {
            proof {
                assert(lex_lt_at(b@, a@, i as int));
                lemma_lex_lt_trichotomy(a@, b@);
            }
            return false;
        }
        assert(a@.subrange(0, i + 1) =~= a@.subrange(0, i as int).push(a@[i as int]));
        assert(b@.subrange(0, i + 1) =~= b@.subrange(0, i as int).push(b@[i as int]));
        i += 1;
    }
    if i < b.len() {
        assert(lex_lt_at(a@, b@, i as int));
        true
    } else {
        proof {
            if i < a@.len() {
                assert(lex_lt_at(b@, a@, i as int));
            } else {
                assert(a@ =~= a@.subrange(0, i as int));
                assert(b@ =~= b@.subrange(0, i as int));
            }
            lemma_lex_lt_trichotomy(a@, b@);
        }
        false
    }
}

} // verus!
