//! Keys of the store: a date becomes eight bytes that sort as the calendar
//! does.

use crate::calendar::parsed_date;
use crate::calendar::CivilDate;
use crate::errors::Error;
use crate::order::lex_lt;
use crate::order::parts_below;
use vstd::prelude::*;

verus! {

/// Length of a key in bytes.
pub const KEY_LEN: usize = 8;

/// The eight bytes of `n`, most significant first: byte after byte is split
/// off at the low end.
pub open spec fn be_bytes(n: u64) -> Seq<u8> {
    let n1 = n / 256;
    let n2 = n1 / 256;
    let n3 = n2 / 256;
    let n4 = n3 / 256;
    let n5 = n4 / 256;
    let n6 = n5 / 256;
    let n7 = n6 / 256;
    seq![
        (n7 % 256) as u8,
        (n6 % 256) as u8,
        (n5 % 256) as u8,
        (n4 % 256) as u8,
        (n3 % 256) as u8,
        (n2 % 256) as u8,
        (n1 % 256) as u8,
        (n % 256) as u8,
    ]
}

/// The unsigned 64-bit number with the bits of the signed `timestamp`
/// (two's complement).
pub open spec fn unsigned_bits(timestamp: int) -> u64 {
    if timestamp >= 0 {
        timestamp as u64
    } else {
        (timestamp + 0x1_0000_0000_0000_0000) as u64
    }
}

/// The key of a date: its timestamp at midnight UTC as a signed 64-bit
/// number, written most significant byte first.
pub open spec fn key_bytes(date: CivilDate) -> Seq<u8> {
    be_bytes(unsigned_bits(date.timestamp()))
}

/// The key of the date that a text holds, if it holds one.
pub open spec fn text_key(text: Seq<char>) -> Option<Seq<u8>> {
    match parsed_date(text) {
        Some(date) => Some(key_bytes(date)),
        None => None,
    }
}

/// The eight bytes of `n`, most significant first.
pub fn to_be_bytes(n: u64) -> (bytes: Vec<u8>)
    ensures
        bytes@ == be_bytes(n),
{
    let n1: u64 = n / 256;
    let n2: u64 = n1 / 256;
    let n3: u64 = n2 / 256;
    let n4: u64 = n3 / 256;
    let n5: u64 = n4 / 256;
    let n6: u64 = n5 / 256;
    let n7: u64 = n6 / 256;
    let mut bytes: Vec<u8> = Vec::with_capacity(KEY_LEN);
    bytes.push((n7 % 256) as u8);
    bytes.push((n6 % 256) as u8);
    bytes.push((n5 % 256) as u8);
    bytes.push((n4 % 256) as u8);
    bytes.push((n3 % 256) as u8);
    bytes.push((n2 % 256) as u8);
    bytes.push((n1 % 256) as u8);
    bytes.push((n % 256) as u8);
    assert(bytes@ =~= be_bytes(n));
    bytes
}

/// The key under which the snapshot of `date` is stored.
pub fn key_for(date: &CivilDate) -> (key: Vec<u8>)
    requires
        date.wf(),
    ensures
        key@ == key_bytes(*date),
        key@.len() == 8,
{
    let timestamp: i64 = date.midnight();
    let bits: u64 = if timestamp >= 0 {
        timestamp as u64
    } else {
        (timestamp + i64::MAX + 1) as u64 + 0x8000_0000_0000_0000
    };
    to_be_bytes(bits)
}

/// The key of the date written in `date`, or `DateParseError` with the text
/// where it holds no date.
pub fn date_as_key(date: &str) -> (r: Result<Vec<u8>, Error>)
    ensures
        match r {
            Ok(key) => text_key(date@) == Some(key@),
            Err(Error::DateParseError(text)) => text_key(date@).is_none() && text@ == date@,
            Err(_) => false,
        },
{
    match CivilDate::parse(date) {
        Some(day) => Ok(key_for(&day)),
        None => Err(Error::DateParseError(date.to_owned())),
    }
}

/// Of two numbers the smaller has the smaller quotient by 256, or the same
/// quotient and the smaller remainder.
proof fn lemma_split_low_byte(x: u64, y: u64)
    requires
        x < y,
    ensures
        x / 256 < y / 256 || (x / 256 == y / 256 && x % 256 < y % 256),
{
}

/// Big-endian bytes sort as the numbers they stand for.
pub proof fn lemma_be_bytes_ascend(x: u64, y: u64)
    requires
        x < y,
    ensures
        lex_lt(be_bytes(x), be_bytes(y)),
{
    let a = be_bytes(x);
    let b = be_bytes(y);
    let x1 = x / 256;
    let x2 = x1 / 256;
    let x3 = x2 / 256;
    let x4 = x3 / 256;
    let x5 = x4 / 256;
    let x6 = x5 / 256;
    let x7 = x6 / 256;
    let y1 = y / 256;
    let y2 = y1 / 256;
    let y3 = y2 / 256;
    let y4 = y3 / 256;
    let y5 = y4 / 256;
    let y6 = y5 / 256;
    let y7 = y6 / 256;
    assert(x7 < 256 && y7 < 256);
    lemma_split_low_byte(x, y);
    if x1 == y1 {
        assert(parts_below(a, b, 7));
    } else {
        lemma_split_low_byte(x1, y1);
        if x2 == y2 {
            assert(parts_below(a, b, 6));
        } else {
            lemma_split_low_byte(x2, y2);
            if x3 == y3 {
                assert(parts_below(a, b, 5));
            } else {
                lemma_split_low_byte(x3, y3);
                if x4 == y4 {
                    assert(parts_below(a, b, 4));
                } else {
                    lemma_split_low_byte(x4, y4);
                    if x5 == y5 {
                        assert(parts_below(a, b, 3));
                    } else {
                        lemma_split_low_byte(x5, y5);
                        if x6 == y6 {
                            assert(parts_below(a, b, 2));
                        } else {
                            lemma_split_low_byte(x6, y6);
                            if x7 == y7 {
                                assert(parts_below(a, b, 1));
                            } else {
                                assert(parts_below(a, b, 0));
                            }
                        }
                    }
                }
            }
        }
    }
}

/// Different numbers have different bytes.
pub proof fn lemma_be_bytes_distinguish(x: u64, y: u64)
    requires
        be_bytes(x) == be_bytes(y),
    ensures
        x == y,
{
    if x < y {
        lemma_be_bytes_ascend(x, y);
        crate::order::lemma_lex_lt_asymmetric(be_bytes(x), be_bytes(y));
    } else if y < x {
        lemma_be_bytes_ascend(y, x);
        crate::order::lemma_lex_lt_asymmetric(be_bytes(y), be_bytes(x));
    }
}

/// The timestamp of a valid date fits in seven bytes and a sign.
pub proof fn lemma_timestamp_bounds(date: CivilDate)
    requires
        date.wf(),
    ensures
        -0x100_0000_0000_0000 < date.timestamp() < 0x100_0000_0000_0000,
{
    crate::calendar::lemma_day_within_year(date.year as int, date.month as int, date.day as int);
    crate::calendar::lemma_year_length(date.year as int);
}

/// Equal dates have equal keys, however they were written: two texts that
/// chrono reads as the same date give the same key.
pub proof fn lemma_same_date_same_key(first: Seq<char>, second: Seq<char>)
    requires
        parsed_date(first).is_some(),
        parsed_date(first) == parsed_date(second),
    ensures
        text_key(first) == text_key(second),
        text_key(first).is_some(),
{
}

/// Different valid dates have different keys.
pub proof fn lemma_key_distinguishes(a: CivilDate, b: CivilDate)
    requires
        a.wf(),
        b.wf(),
        key_bytes(a) == key_bytes(b),
    ensures
        a == b,
{
    lemma_timestamp_bounds(a);
    lemma_timestamp_bounds(b);
    lemma_be_bytes_distinguish(unsigned_bits(a.timestamp()), unsigned_bits(b.timestamp()));
    crate::calendar::lemma_epoch_day_distinguishes(a, b);
}

/// Keys sort as the calendar does: of two valid dates on the same side of
/// 1970-01-01 the earlier has the key that sorts first. A date before 1970
/// has a negative timestamp, whose first byte is 255, so its key sorts
/// after the key of every date from 1970 on.
pub proof fn lemma_key_order(a: CivilDate, b: CivilDate)
    requires
        a.wf(),
        b.wf(),
        a.precedes(&b),
        !(a.epoch_day() < 0 <= b.epoch_day()),
    ensures
        lex_lt(key_bytes(a), key_bytes(b)),
{
    crate::calendar::lemma_epoch_day_ascends(a, b);
    lemma_timestamp_bounds(a);
    lemma_timestamp_bounds(b);
    lemma_be_bytes_ascend(unsigned_bits(a.timestamp()), unsigned_bits(b.timestamp()));
}

/// The other side of 1970: a date before it has a key that sorts after the
/// key of any date from 1970 on.
pub proof fn lemma_key_order_across_epoch(a: CivilDate, b: CivilDate)
    requires
        a.wf(),
        b.wf(),
        a.epoch_day() < 0 <= b.epoch_day(),
    ensures
        lex_lt(key_bytes(b), key_bytes(a)),
{
    lemma_timestamp_bounds(a);
    lemma_timestamp_bounds(b);
    lemma_be_bytes_ascend(unsigned_bits(b.timestamp()), unsigned_bits(a.timestamp()));
}

/// The first byte of a key tells the side of 1970-01-01 on which its date
/// lies: it is 0 from that day on and 255 before it.
pub proof fn lemma_first_byte(date: CivilDate)
    requires
        date.wf(),
    ensures
        key_bytes(date).len() == 8,
        key_bytes(date)[0] == if date.epoch_day() >= 0 {
            0u8
        } else {
            255u8
        },
{
    lemma_timestamp_bounds(date);
    let n = unsigned_bits(date.timestamp());
    if date.epoch_day() >= 0 {
        assert(n < 0x100_0000_0000_0000);
    } else {
        assert(n >= 0xff00_0000_0000_0000);
    }
    let n7 = n / 256 / 256 / 256 / 256 / 256 / 256 / 256;
    assert(n7 == n / 0x100_0000_0000_0000) by {
        lemma_seven_bytes_down(n);
    }
}

/// Seven divisions by 256 are one division by 256 to the seventh.
proof fn lemma_seven_bytes_down(n: u64)
    ensures
        n / 256 / 256 / 256 / 256 / 256 / 256 / 256 == n / 0x100_0000_0000_0000,
{
    assert(n / 256 / 256 / 256 / 256 / 256 / 256 / 256 == n / 0x100_0000_0000_0000)
        by (bit_vector);
}

/// Keys sort only as the calendar does: of two valid dates on the same side
/// of 1970-01-01, the one whose key sorts first is the earlier.
pub proof fn lemma_key_order_back(a: CivilDate, b: CivilDate)
    requires
        a.wf(),
        b.wf(),
        (a.epoch_day() < 0) == (b.epoch_day() < 0),
        lex_lt(key_bytes(a), key_bytes(b)),
    ensures
        a.precedes(&b),
{
    crate::order::lemma_lex_lt_asymmetric(key_bytes(a), key_bytes(b));
    if b.precedes(&a) {
        lemma_key_order(b, a);
    }
}

} // verus!
