//! Little-endian integers and timestamps in byte sequences.
use vstd::prelude::*;
use crate::error::StorageError;
use crate::time::{Timestamp, NANOS};

verus! {

/// The lowest `width` bytes of `n`, least significant first.
pub open spec fn le_bytes(n: nat, width: nat) -> Seq<u8>
    decreases width,
{
    if width == 0 {
        Seq::<u8>::empty()
    } else {
        seq![(n % 256) as u8] + le_bytes(n / 256, (width - 1) as nat)
    }
}

/// The number whose bytes are `bytes`, least significant first.
pub open spec fn le_value(bytes: Seq<u8>) -> nat
    decreases bytes.len(),
{
    if bytes.len() == 0 {
        0
    } else {
        bytes[0] as nat + 256 * le_value(bytes.drop_first())
    }
}

/// The number of values of `width` bytes.
pub open spec fn byte_range(width: nat) -> nat
    decreases width,
{
    if width == 0 {
        1
    } else {
        256 * byte_range((width - 1) as nat)
    }
}

/// The two's complement of `value` in 64 bits.
pub open spec fn to_unsigned(value: i64) -> nat {
    if value >= 0 {
        value as nat
    } else {
        (value + 0x1_0000_0000_0000_0000) as nat
    }
}

/// The number whose two's complement in 64 bits is `bits`.
pub open spec fn to_signed(bits: nat) -> i64 {
    if bits < 0x8000_0000_0000_0000 {
        bits as i64
    } else {
        (bits - 0x1_0000_0000_0000_0000) as i64
    }
}

/// A timestamp as an index holds it.
pub open spec fn timestamp_bytes(t: Timestamp) -> Seq<u8> {
    le_bytes(to_unsigned(t.seconds), 8) + le_bytes(t.nanoseconds as nat, 4)
}

/// The timestamp in twelve bytes.
pub open spec fn timestamp_in(bytes: Seq<u8>) -> Timestamp {
    Timestamp {
        seconds: to_signed(le_value(bytes.take(8))),
        nanoseconds: le_value(bytes.subrange(8, 12)) as u32,
    }
}

pub proof fn lemma_byte_range()
    ensures
        byte_range(0) == 1,
        byte_range(1) == 0x100,
        byte_range(2) == 0x1_0000,
        byte_range(4) == 0x1_0000_0000,
        byte_range(8) == 0x1_0000_0000_0000_0000,
{
    reveal_with_fuel(byte_range, 9);
}

pub proof fn lemma_byte_range_grows(a: nat, b: nat)
    requires
        a <= b,
    ensures
        byte_range(a) <= byte_range(b),
        byte_range(a) > 0,
    decreases b,
{
    if a < b {
        lemma_byte_range_grows(a, (b - 1) as nat);
    } else if a > 0 {
        lemma_byte_range_grows((a - 1) as nat, (b - 1) as nat);
    }
}

pub proof fn lemma_le_bytes_len(n: nat, width: nat)
    ensures
        le_bytes(n, width).len() == width,
    decreases width,
{
    if width > 0 {
        lemma_le_bytes_len(n / 256, (width - 1) as nat);
    }
}

pub proof fn lemma_le_value_bound(bytes: Seq<u8>)
    ensures
        le_value(bytes) < byte_range(bytes.len()),
    decreases bytes.len(),
{
    if bytes.len() > 0 {
        lemma_le_value_bound(bytes.drop_first());
    }
}

/// A number that fits is read back as it was written.
pub proof fn law_le_round_trip(n: nat, width: nat)
    requires
        n < byte_range(width),
    ensures
        le_value(le_bytes(n, width)) == n,
        le_bytes(n, width).len() == width,
    decreases width,
{
    lemma_le_bytes_len(n, width);
    if width > 0 {
        law_le_round_trip(n / 256, (width - 1) as nat);
        assert(le_bytes(n, width).drop_first() =~= le_bytes(n / 256, (width - 1) as nat));
    }
}

/// A timestamp is read back as it was written.
pub proof fn law_timestamp_bytes_round_trip(t: Timestamp)
    ensures
        timestamp_bytes(t).len() == 12,
        timestamp_in(timestamp_bytes(t)) == t,
{
    lemma_byte_range();
    law_le_round_trip(to_unsigned(t.seconds), 8);
    law_le_round_trip(t.nanoseconds as nat, 4);
    let b = timestamp_bytes(t);
    assert(b.take(8) =~= le_bytes(to_unsigned(t.seconds), 8));
    assert(b.subrange(8, 12) =~= le_bytes(t.nanoseconds as nat, 4));
}

/// Appends the lowest `width` bytes of `value` to `out`.
pub fn push_le(out: &mut Vec<u8>, value: u64, width: usize)
    requires
        width <= 8,
    ensures
        final(out)@ == old(out)@ + le_bytes(value as nat, width as nat),
{
    let mut rest: u64 = value;
    let mut i: usize = 0;
    assert(out@ + le_bytes(rest as nat, width as nat) =~= old(out)@ + le_bytes(
        value as nat,
        width as nat,
    ));
    while i < width
        invariant
            i <= width <= 8,
            out@ + le_bytes(rest as nat, (width - i) as nat) == old(out)@ + le_bytes(
                value as nat,
                width as nat,
            ),
        decreases width - i,
    {
        let ghost before = out@;
        let ghost bytes = le_bytes(rest as nat, (width - i) as nat);
        out.push((rest % 256) as u8);
        rest = rest / 256;
        i += 1;
        assert(out@ + le_bytes(rest as nat, (width - i) as nat) =~= before + bytes);
    }
    assert(out@ + le_bytes(rest as nat, 0) =~= out@);
}

/// The number in the `width` bytes of `buffer` from `at`.
pub fn get_le(buffer: &[u8], at: usize, width: usize) -> (r: u64)
    requires
        width <= 8,
        at + width <= buffer.len(),
    ensures
        r == le_value(buffer@.subrange(at as int, at + width)),
        r < byte_range(width as nat),
{
    let mut value: u64 = 0;
    let mut i: usize = width;
    assert(buffer@.subrange(at + i, at + width) =~= Seq::<u8>::empty());
    while i > 0
        invariant
            i <= width <= 8,
            at + width <= buffer.len(),
            value == le_value(buffer@.subrange(at + i, at + width)),
        decreases i,
    {
        i -= 1;
        proof {
            let part = buffer@.subrange(at + i, at + width);
            assert(part.drop_first() =~= buffer@.subrange(at + i + 1, at + width));
            lemma_le_value_bound(part);
            lemma_byte_range_grows(part.len(), 8);
            lemma_byte_range();
        }
        value = value * 256 + buffer[at + i] as u64;
    }
    proof {
        lemma_le_value_bound(buffer@.subrange(at as int, at + width));
    }
    value
}

/// Reads `width` bytes at the cursor and moves it past them.
fn read_le(buffer: &[u8], cursor: &mut usize, width: usize) -> (r: Result<u64, StorageError>)
    requires
        width <= 8,
        *old(cursor) <= buffer.len(),
    ensures
        match r {
            Ok(value) => {
                &&& *final(cursor) == *old(cursor) + width <= buffer.len()
                &&& value == le_value(buffer@.subrange(*old(cursor) as int, *old(cursor) + width))
                &&& value < byte_range(width as nat)
            },
            Err(error) => {
                &&& *old(cursor) + width > buffer.len()
                &&& *final(cursor) == *old(cursor)
                &&& error == StorageError::UnexpectedEnd
            },
        },
{
    if buffer.len() - *cursor < width {
        return Err(StorageError::UnexpectedEnd);
    }
    let value: u64 = get_le(buffer, *cursor, width);
    *cursor = *cursor + width;
    Ok(value)
}

/// Reads two bytes at the cursor and moves it past them.
pub fn read_u16(buffer: &[u8], cursor: &mut usize) -> (r: Result<u16, StorageError>)
    requires
        *old(cursor) <= buffer.len(),
    ensures
        match r {
            Ok(value) => {
                &&& *final(cursor) == *old(cursor) + 2 <= buffer.len()
                &&& value == le_value(buffer@.subrange(*old(cursor) as int, *old(cursor) + 2))
            },
            Err(error) => {
                &&& *old(cursor) + 2 > buffer.len()
                &&& *final(cursor) == *old(cursor)
                &&& error == StorageError::UnexpectedEnd
            },
        },
{
    proof {
        lemma_byte_range();
    }
    match read_le(buffer, cursor, 2) {
        Ok(value) => Ok(value as u16),
        Err(error) => Err(error),
    }
}

/// Reads four bytes at the cursor and moves it past them.
pub fn read_u32(buffer: &[u8], cursor: &mut usize) -> (r: Result<u32, StorageError>)
    requires
        *old(cursor) <= buffer.len(),
    ensures
        match r {
            Ok(value) => {
                &&& *final(cursor) == *old(cursor) + 4 <= buffer.len()
                &&& value == le_value(buffer@.subrange(*old(cursor) as int, *old(cursor) + 4))
            },
            Err(error) => {
                &&& *old(cursor) + 4 > buffer.len()
                &&& *final(cursor) == *old(cursor)
                &&& error == StorageError::UnexpectedEnd
            },
        },
{
    proof {
        lemma_byte_range();
    }
    match read_le(buffer, cursor, 4) {
        Ok(value) => Ok(value as u32),
        Err(error) => Err(error),
    }
}

/// Reads eight bytes at the cursor and moves it past them.
pub fn read_u64(buffer: &[u8], cursor: &mut usize) -> (r: Result<u64, StorageError>)
    requires
        *old(cursor) <= buffer.len(),
    ensures
        match r {
            Ok(value) => {
                &&& *final(cursor) == *old(cursor) + 8 <= buffer.len()
                &&& value == le_value(buffer@.subrange(*old(cursor) as int, *old(cursor) + 8))
            },
            Err(error) => {
                &&& *old(cursor) + 8 > buffer.len()
                &&& *final(cursor) == *old(cursor)
                &&& error == StorageError::UnexpectedEnd
            },
        },
{
    read_le(buffer, cursor, 8)
}

/// Reads a signed number of eight bytes at the cursor and moves it past them.
pub fn read_i64(buffer: &[u8], cursor: &mut usize) -> (r: Result<i64, StorageError>)
    requires
        *old(cursor) <= buffer.len(),
    ensures
        match r {
            Ok(value) => {
                &&& *final(cursor) == *old(cursor) + 8 <= buffer.len()
                &&& value == to_signed(
                    le_value(buffer@.subrange(*old(cursor) as int, *old(cursor) + 8)),
                )
            },
            Err(error) => {
                &&& *old(cursor) + 8 > buffer.len()
                &&& *final(cursor) == *old(cursor)
                &&& error == StorageError::UnexpectedEnd
            },
        },
{
    match read_le(buffer, cursor, 8) {
        Ok(bits) => {
            if bits <= i64::MAX as u64 {
                Ok(bits as i64)
            } else {
                Ok(-((u64::MAX - bits) as i64) - 1)
            }
        },
        Err(error) => Err(error),
    }
}

/// Reads a timestamp at the cursor and moves it past what was read. A timestamp takes twelve
/// bytes; one with a full second of nanoseconds is refused.
pub fn read_timestamp(buffer: &[u8], cursor: &mut usize) -> (r: Result<Timestamp, StorageError>)
    requires
        *old(cursor) <= buffer.len(),
    ensures
        *final(cursor) <= buffer.len(),
        *old(cursor) + 12 > buffer.len() ==> r == Err::<Timestamp, StorageError>(
            StorageError::UnexpectedEnd,
        ),
        *old(cursor) + 12 <= buffer.len() ==> {
            let t = timestamp_in(buffer@.subrange(*old(cursor) as int, *old(cursor) + 12));
            &&& *final(cursor) == *old(cursor) + 12
            &&& r == if t.is_valid() {
                Ok::<Timestamp, StorageError>(t)
            } else {
                Err::<Timestamp, StorageError>(StorageError::BadTimestamp)
            }
        },
{
    let ghost start = *cursor;
    let seconds: i64 = match read_i64(buffer, cursor) {
        Ok(seconds) => seconds,
        Err(error) => return Err(error),
    };
    let nanoseconds: u32 = match read_u32(buffer, cursor) {
        Ok(nanoseconds) => nanoseconds,
        Err(error) => return Err(error),
    };
    proof {
        let b = buffer@.subrange(start as int, start + 12);
        assert(b.take(8) =~= buffer@.subrange(start as int, start + 8));
        assert(b.subrange(8, 12) =~= buffer@.subrange(start + 8, start + 12));
    }
    if nanoseconds >= NANOS {
        return Err(StorageError::BadTimestamp);
    }
    Ok(Timestamp { seconds, nanoseconds })
}

/// Appends a timestamp to `output`.
pub fn write_timestamp(output: &mut Vec<u8>, timestamp: Timestamp)
    ensures
        final(output)@ == old(output)@ + timestamp_bytes(timestamp),
{
    let bits: u64 = if timestamp.seconds >= 0 {
        timestamp.seconds as u64
    } else {
        u64::MAX - (-(timestamp.seconds + 1)) as u64
    };
    push_le(output, bits, 8);
    push_le(output, timestamp.nanoseconds as u64, 4);
    assert(output@ =~= old(output)@ + timestamp_bytes(timestamp));
}

/// Reads eight bytes at the cursor, wherever it stands, and moves it past them.
pub fn read_u64_slice(buffer: &[u8], cursor: &mut usize) -> (r: Result<u64, StorageError>)
    ensures
        match r {
            Ok(value) => {
                &&& *final(cursor) == *old(cursor) + 8 <= buffer.len()
                &&& value == le_value(buffer@.subrange(*old(cursor) as int, *old(cursor) + 8))
            },
            Err(error) => {
                &&& *old(cursor) + 8 > buffer.len()
                &&& *final(cursor) == *old(cursor)
                &&& error == if *old(cursor) + 8 > usize::MAX {
                    StorageError::CursorOverflow
                } else {
                    StorageError::TruncatedInteger
                }
            },
        },
{
    match cursor.checked_add(8) {
        None => Err(StorageError::CursorOverflow),
        Some(end) => {
            if end > buffer.len() {
                return Err(StorageError::TruncatedInteger);
            }
            let value: u64 = get_le(buffer, *cursor, 8);
            *cursor = end;
            Ok(value)
        },
    }
}

} // verus!
