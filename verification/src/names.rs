//! The names of the files in a data directory: `wal.log` for the log,
//! `sstable_<N>.db` for table number `N` and `sstable_<N>.bloom` for its
//! filter, with `N` in decimal.
//!
//! Names are byte strings. A name that is read may write its number with
//! leading zeros or a leading plus sign; a name that is made never does.

use vstd::prelude::*;
use crate::bytes::extend_bytes;

verus! {

/// The byte of the digit `0`.
pub const ZERO: u8 = 48;

/// The byte of the digit `9`.
pub const NINE: u8 = 57;

/// The byte of the plus sign.
pub const PLUS: u8 = 43;

/// The decimal digit for a number below ten.
pub open spec fn digit(d: nat) -> u8 {
    (ZERO + d) as u8
}

/// Whether a byte is a decimal digit.
pub open spec fn is_digit(b: u8) -> bool {
    ZERO <= b <= NINE
}

/// The decimal digits of a number, without leading zeros.
pub open spec fn decimal(n: nat) -> Seq<u8>
    decreases n,
{
    if n < 10 {
        seq![digit(n)]
    } else {
        decimal(n / 10).push(digit(n % 10))
    }
}

/// The number that a non-empty string of decimal digits writes; `None` for
/// the empty string and for one that holds anything but digits.
pub open spec fn digits_value(s: Seq<u8>) -> Option<nat>
    decreases s.len(),
{
    if s.len() == 0 || !is_digit(s.last()) {
        None
    } else if s.len() == 1 {
        Some((s.last() - ZERO) as nat)
    } else {
        match digits_value(s.drop_last()) {
            None => None,
            Some(v) => Some(v * 10 + (s.last() - ZERO) as nat),
        }
    }
}

/// The number that a string writes: decimal digits, which a single plus
/// sign may precede.
pub open spec fn number_value(s: Seq<u8>) -> Option<nat> {
    if s.len() > 0 && s[0] == PLUS {
        digits_value(s.skip(1))
    } else {
        digits_value(s)
    }
}

/// The bytes of `sstable_`.
pub open spec fn table_prefix() -> Seq<u8> {
    seq![115, 115, 116, 97, 98, 108, 101, 95]
}

/// The bytes of `.db`.
pub open spec fn table_suffix() -> Seq<u8> {
    seq![46, 100, 98]
}

/// The bytes of `.bloom`.
pub open spec fn bloom_suffix() -> Seq<u8> {
    seq![46, 98, 108, 111, 111, 109]
}

/// The bytes of `wal.log`.
pub open spec fn wal_name() -> Seq<u8> {
    seq![119, 97, 108, 46, 108, 111, 103]
}

/// The name of the file of table number `n`.
pub open spec fn table_name(n: nat) -> Seq<u8> {
    table_prefix() + decimal(n) + table_suffix()
}

/// The name of the filter file of table number `n`.
pub open spec fn bloom_name(n: nat) -> Seq<u8> {
    table_prefix() + decimal(n) + bloom_suffix()
}

/// The table number that a file name carries: the name must start with
/// `sstable_` and end with `.db`, and what stands between must write a
/// number that fits the machine word. Any other name is no table's.
pub open spec fn table_number(name: Seq<u8>) -> Option<usize> {
    if name.len() >= 11 && name.take(8) == table_prefix() && name.skip(name.len() - 3)
        == table_suffix() {
        match number_value(name.subrange(8, name.len() - 3)) {
            Some(v) => if v <= usize::MAX {
                Some(v as usize)
            } else {
                None
            },
            None => None,
        }
    } else {
        None
    }
}

/// The decimal digits of a number are digits, at least one of them, and
/// write that number.
pub proof fn lemma_decimal(n: nat)
    ensures
        decimal(n).len() >= 1,
        forall|i: int| 0 <= i < decimal(n).len() ==> is_digit(#[trigger] decimal(n)[i]),
        digits_value(decimal(n)) == Some(n),
    decreases n,
{
    if n >= 10 {
        lemma_decimal(n / 10);
        let front = decimal(n / 10);
        let all = decimal(n);
        assert(all.drop_last() =~= front);
        assert(all.last() == digit(n % 10));
        assert forall|i: int| 0 <= i < all.len() implies is_digit(#[trigger] all[i]) by {
            if i < front.len() {
                assert(all[i] == front[i]);
            }
        }
    }
}

/// The name made for a table carries the table's number.
pub proof fn lemma_table_name_round_trip(n: usize)
    ensures
        table_number(table_name(n as nat)) == Some(n),
{
    let name = table_name(n as nat);
    let digits = decimal(n as nat);
    lemma_decimal(n as nat);
    assert(name.take(8) =~= table_prefix());
    assert(name.skip(name.len() - 3) =~= table_suffix());
    assert(name.subrange(8, name.len() - 3) =~= digits);
    assert(is_digit(digits[0]));
}

/// Appends the decimal digits of `n` to `out`.
fn push_decimal(out: &mut Vec<u8>, n: usize)
    ensures
        final(out)@ == old(out)@ + decimal(n as nat),
    decreases n,
{
    if n >= 10 {
        push_decimal(out, n / 10);
    }
    out.push(ZERO + (n % 10) as u8);
    assert(out@ =~= old(out)@ + decimal(n as nat));
}

/// The name of the log file: `wal.log`.
pub fn wal_file_name() -> (name: Vec<u8>)
    ensures
        name@ == wal_name(),
{
    let name: Vec<u8> = vec![119, 97, 108, 46, 108, 111, 103];
    assert(name@ =~= wal_name());
    name
}

/// The name of the file of table number `index`: `sstable_<index>.db`.
pub fn sstable_file_name(index: usize) -> (name: Vec<u8>)
    ensures
        name@ == table_name(index as nat),
        table_number(name@) == Some(index),
{
    let mut name: Vec<u8> = vec![115, 115, 116, 97, 98, 108, 101, 95];
    assert(name@ =~= table_prefix());
    push_decimal(&mut name, index);
    let suffix: [u8; 3] = [46, 100, 98];
    assert(suffix@ =~= table_suffix());
    extend_bytes(&mut name, suffix.as_slice());
    proof {
        lemma_table_name_round_trip(index);
    }
    name
}

/// The name of the filter file of table number `index`:
/// `sstable_<index>.bloom`.
pub fn bloom_file_name(index: usize) -> (name: Vec<u8>)
    ensures
        name@ == bloom_name(index as nat),
{
    let mut name: Vec<u8> = vec![115, 115, 116, 97, 98, 108, 101, 95];
    assert(name@ =~= table_prefix());
    push_decimal(&mut name, index);
    let suffix: [u8; 6] = [46, 98, 108, 111, 111, 109];
    assert(suffix@ =~= bloom_suffix());
    extend_bytes(&mut name, suffix.as_slice());
    name
}

/// Whether `name[from..]` equals `expected`.
fn matches_at(name: &[u8], from: usize, expected: &[u8]) -> (same: bool)
    requires
        from + expected@.len() <= name@.len() <= usize::MAX,
    ensures
        same == (name@.subrange(from as int, from + expected@.len()) == expected@),
{
    let mut i: usize = 0;
    while i < expected.len()
        invariant
            i <= expected@.len(),
            from + expected@.len() <= name@.len(),
            name@.len() <= usize::MAX,
            forall|j: int| 0 <= j < i ==> name@[from + j] == expected@[j],
        decreases expected@.len() - i,
    {
        if name[from + i] != expected[i] {
            assert(name@.subrange(from as int, from + expected@.len())[i as int]
                != expected@[i as int]);
            return false;
        }
        i += 1;
    }
    assert(name@.subrange(from as int, from + expected@.len()) =~= expected@);
    true
}

/// Reads the table number from a file name. Returns `None` for a name
/// that is no table's: one that does not start with `sstable_` or end
/// with `.db`, or whose number is missing, malformed or too large.
pub fn parse_sstable_name(name: &[u8]) -> (index: Option<usize>)
    ensures
        index == table_number(name@),
{
    let prefix: [u8; 8] = [115, 115, 116, 97, 98, 108, 101, 95];
    let suffix: [u8; 3] = [46, 100, 98];
    assert(prefix@ =~= table_prefix());
    assert(suffix@ =~= table_suffix());
    if name.len() < 11 {
        return None;
    }
    let end = name.len() - 3;
    assert(name@.take(8) =~= name@.subrange(0, 8));
    assert(name@.skip(name@.len() - 3) =~= name@.subrange(end as int, end + 3));
    if !matches_at(name, 0, prefix.as_slice()) || !matches_at(name, end, suffix.as_slice()) {
        return None;
    }
    let ghost body = name@.subrange(8, end as int);
    let start: usize = if end > 8 && name[8] == PLUS {
        9
    } else {
        8
    };
    let ghost digits = name@.subrange(start as int, end as int);
    proof {
        if start == 9 {
            assert(body[0] == name@[8]);
            assert(body.skip(1) =~= digits);
        } else {
            if body.len() > 0 {
                assert(body[0] == name@[8]);
            }
            assert(body =~= digits);
        }
        assert(number_value(body) == digits_value(digits));
    }
    if start == end {
        return None;
    }
    let mut value: usize = 0;
    let mut i: usize = start;
    while i < end
        invariant
            start <= i <= end,
            end <= name@.len(),
            start < end,
            digits == name@.subrange(start as int, end as int),
            table_number(name@) == match digits_value(digits) {
                Some(v) => if v <= usize::MAX {
                    Some(v as usize)
                } else {
                    None
                },
                None => None,
            },
            i > start ==> digits_value(digits.take(i - start)) == Some(value as nat),
            i == start ==> value == 0,
        decreases end - i,
    {
        let byte = name[i];
        let ghost seen = digits.take(i - start + 1);
        proof {
            assert(seen.last() == byte);
            assert(seen.drop_last() =~= digits.take(i - start));
        }
        if byte < ZERO || byte > NINE {
            proof {
                lemma_digits_prefix(digits, i - start + 1);
            }
            return None;
        }
        let d = (byte - ZERO) as usize;
        assert(digits_value(seen) == Some((value * 10 + d) as nat));
        if value > (usize::MAX - d) / 10 {
            proof {
                lemma_digits_grow(digits, i - start + 1);
            }
            return None;
        }
        value = value * 10 + d;
        i += 1;
    }
    assert(digits.take(end - start) =~= digits);
    Some(value)
}

/// Where the first `count` bytes write no number, the whole string writes
/// none.
proof fn lemma_digits_prefix(s: Seq<u8>, count: int)
    requires
        1 <= count <= s.len(),
        digits_value(s.take(count)).is_none(),
    ensures
        digits_value(s).is_none(),
    decreases s.len() - count,
{
    if count < s.len() {
        assert(s.take(count + 1).drop_last() =~= s.take(count));
        lemma_digits_prefix(s, count + 1);
    } else {
        assert(s.take(count) =~= s);
    }
}

/// The number that a string of digits writes is at least the number that
/// its first `count` digits write.
proof fn lemma_digits_grow(s: Seq<u8>, count: int)
    requires
        1 <= count <= s.len(),
    ensures
        digits_value(s).is_some() ==> digits_value(s.take(count)).is_some() && digits_value(
            s,
        ).unwrap() >= digits_value(s.take(count)).unwrap(),
    decreases s.len() - count,
{
    if count < s.len() {
        assert(s.take(count + 1).drop_last() =~= s.take(count));
        lemma_digits_grow(s, count + 1);
    } else {
        assert(s.take(count) =~= s);
    }
}

} // verus!
