//! Big-endian integers and bounds-checked reads, the primitives of the
//! archive's byte layout.

use vstd::prelude::*;
use vstd::slice::slice_subrange;

verus! {

/// The number that `bytes` denote as a base-256 numeral, most significant
/// byte first.
pub open spec fn be_value(bytes: Seq<u8>) -> nat
    decreases bytes.len(),
{
    if bytes.len() == 0 {
        0
    } else {
        be_value(bytes.drop_last()) * 256 + bytes.last() as nat
    }
}

/// The big-endian numeral of `value` in exactly `width` bytes. Digits above
/// the width are dropped.
pub open spec fn be_bytes(value: nat, width: nat) -> Seq<u8>
    decreases width,
{
    if width == 0 {
        Seq::empty()
    } else {
        be_bytes(value / 256, (width - 1) as nat).push((value % 256) as u8)
    }
}

/// 256 to the power `width`: the number of values that `width` bytes can hold.
pub open spec fn capacity(width: nat) -> nat
    decreases width,
{
    if width == 0 {
        1
    } else {
        256 * capacity((width - 1) as nat)
    }
}

/// A numeral has as many bytes as its width.
pub proof fn lemma_be_bytes_len(value: nat, width: nat)
    ensures
        be_bytes(value, width).len() == width,
    decreases width,
{
    if width > 0 {
        lemma_be_bytes_len(value / 256, (width - 1) as nat);
    }
}

/// Reading back the numeral of a value that fits its width gives the value.
pub proof fn lemma_be_value_of_bytes(value: nat, width: nat)
    requires
        value < capacity(width),
    ensures
        be_value(be_bytes(value, width)) == value,
    decreases width,
{
    if width > 0 {
        let rest = be_bytes(value / 256, (width - 1) as nat);
        lemma_be_value_of_bytes(value / 256, (width - 1) as nat);
        assert(be_bytes(value, width).drop_last() =~= rest);
    }
}

/// What one, two, four and eight bytes denote, written out digit by digit.
pub proof fn lemma_be_value_expanded(bytes: Seq<u8>)
    ensures
        bytes.len() == 1 ==> be_value(bytes) == bytes[0],
        bytes.len() == 2 ==> be_value(bytes) == bytes[0] * 0x100 + bytes[1],
        bytes.len() == 4 ==> be_value(bytes) == bytes[0] * 0x100_0000 + bytes[1] * 0x1_0000
            + bytes[2] * 0x100 + bytes[3],
        bytes.len() == 8 ==> be_value(bytes) == bytes[0] * 0x100_0000_0000_0000 + bytes[1]
            * 0x1_0000_0000_0000 + bytes[2] * 0x100_0000_0000 + bytes[3] * 0x1_0000_0000
            + bytes[4] * 0x100_0000 + bytes[5] * 0x1_0000 + bytes[6] * 0x100 + bytes[7],
    decreases bytes.len(),
{
    if bytes.len() == 1 {
        assert(be_value(bytes.drop_last()) == 0);
    } else if bytes.len() == 2 {
        lemma_be_value_expanded(bytes.drop_last());
    } else if bytes.len() == 4 {
        let b3 = bytes.drop_last();
        let b2 = b3.drop_last();
        lemma_be_value_expanded(b2);
        assert(be_value(b3) == be_value(b2) * 256 + b3.last());
        assert(be_value(bytes) == be_value(b3) * 256 + bytes.last());
    } else if bytes.len() == 8 {
        let b7 = bytes.drop_last();
        let b6 = b7.drop_last();
        let b5 = b6.drop_last();
        let b4 = b5.drop_last();
        lemma_be_value_expanded(b4);
        assert(be_value(b5) == be_value(b4) * 256 + b5.last());
        assert(be_value(b6) == be_value(b5) * 256 + b6.last());
        assert(be_value(b7) == be_value(b6) * 256 + b7.last());
        assert(be_value(bytes) == be_value(b7) * 256 + bytes.last());
    }
}

/// The capacities of the three field widths of the layout.
pub proof fn lemma_capacities()
    ensures
        capacity(2) == 0x1_0000,
        capacity(4) == 0x1_0000_0000,
        capacity(8) == 0x1_0000_0000_0000_0000,
{
    reveal_with_fuel(capacity, 9);
}

/// Appends the `width`-byte big-endian numeral of `value` to `out`.
pub fn push_be(out: &mut Vec<u8>, value: u64, width: usize)
    ensures
        final(out)@ == old(out)@ + be_bytes(value as nat, width as nat),
    decreases width,
{
    if width > 0 {
        push_be(out, value / 256, width - 1);
        out.push((value % 256) as u8);
    }
}

/// Appends `bytes` to `out`.
pub fn push_all(out: &mut Vec<u8>, bytes: &[u8])
    ensures
        final(out)@ == old(out)@ + bytes@,
{
    let ghost before = out@;
    let mut i: usize = 0;
    while i < bytes.len()
        invariant
            i <= bytes.len(),
            out@ == before + bytes@.subrange(0, i as int),
        decreases bytes.len() - i,
    {
        out.push(bytes[i]);
        i = i + 1;
    }
}

/// The field of `width` bytes that starts at `pos`, read as a big-endian
/// number; `None` where `data` does not hold that many bytes from `pos` on.
pub open spec fn field_at(data: Seq<u8>, pos: int, width: nat) -> Option<nat> {
    if 0 <= pos && pos + width <= data.len() {
        Some(be_value(data.subrange(pos, pos + width)))
    } else {
        None
    }
}

/// The `amount` bytes that start at `pos`; `None` where `data` does not hold
/// that many bytes from `pos` on.
pub open spec fn bytes_at(data: Seq<u8>, pos: int, amount: int) -> Option<Seq<u8>> {
    if 0 <= pos && 0 <= amount && pos + amount <= data.len() {
        Some(data.subrange(pos, pos + amount))
    } else {
        None
    }
}

/// The two's-complement pattern of a 64-bit signed number, as the unsigned
/// number with the same bits.
pub open spec fn pattern_of_i64(value: i64) -> u64 {
    if value >= 0 {
        value as u64
    } else {
        (value + 0x1_0000_0000_0000_0000) as u64
    }
}

/// The signed number whose two's-complement pattern is `bits`.
pub open spec fn i64_of_pattern(bits: u64) -> i64 {
    if bits < 0x8000_0000_0000_0000 {
        bits as i64
    } else {
        (bits - 0x1_0000_0000_0000_0000) as i64
    }
}

/// The two's-complement pattern of a 32-bit signed number.
pub open spec fn pattern_of_i32(value: i32) -> u32 {
    if value >= 0 {
        value as u32
    } else {
        (value + 0x1_0000_0000) as u32
    }
}

/// The signed number whose two's-complement pattern is `bits`.
pub open spec fn i32_of_pattern(bits: u32) -> i32 {
    if bits < 0x8000_0000 {
        bits as i32
    } else {
        (bits - 0x1_0000_0000) as i32
    }
}

/// Calls `byteorder::BigEndian::read_u64`, which reads the first eight bytes
/// of `buf` as one big-endian number and panics on a shorter buffer. The
/// contract is taken on trust: the result is what those eight bytes denote.
#[verifier::external_body]
fn read_u64(buf: &[u8]) -> (value: u64)
    requires
        buf@.len() >= 8,
    ensures
        value as nat == be_value(buf@.subrange(0, 8)),
{
    <byteorder::BigEndian as byteorder::ByteOrder>::read_u64(buf)
}

/// Calls `byteorder::BigEndian::read_u32`, which reads the first four bytes
/// of `buf` as one big-endian number and panics on a shorter buffer. The
/// contract is taken on trust: the result is what those four bytes denote.
#[verifier::external_body]
fn read_u32(buf: &[u8]) -> (value: u32)
    requires
        buf@.len() >= 4,
    ensures
        value as nat == be_value(buf@.subrange(0, 4)),
{
    <byteorder::BigEndian as byteorder::ByteOrder>::read_u32(buf)
}

/// Calls `byteorder::BigEndian::read_u16`, which reads the first two bytes
/// of `buf` as one big-endian number and panics on a shorter buffer. The
/// contract is taken on trust: the result is what those two bytes denote.
#[verifier::external_body]
fn read_u16(buf: &[u8]) -> (value: u16)
    requires
        buf@.len() >= 2,
    ensures
        value as nat == be_value(buf@.subrange(0, 2)),
{
    <byteorder::BigEndian as byteorder::ByteOrder>::read_u16(buf)
}

/// Whether `data` holds `amount` bytes from `pos` on.
pub fn holds(data: &Vec<u8>, pos: usize, amount: u64) -> (r: bool)
    ensures
        r == (pos + amount <= data.len()),
{
    pos <= data.len() && amount <= (data.len() - pos) as u64
}

/// The eight-byte big-endian number at `pos`, if `data` reaches that far.
pub fn u64_at(data: &Vec<u8>, pos: usize) -> (r: Option<u64>)
    ensures
        match r {
            Some(value) => field_at(data@, pos as int, 8) == Some(value as nat),
            None => field_at(data@, pos as int, 8) is None,
        },
        r is Some <==> pos + 8 <= data.len(),
{
    if holds(data, pos, 8) {
        let field = slice_subrange(data.as_slice(), pos, pos + 8);
        assert(field@.subrange(0, 8) =~= field@);
        Some(read_u64(field))
    } else {
        None
    }
}

/// The four-byte big-endian number at `pos`, if `data` reaches that far.
pub fn u32_at(data: &Vec<u8>, pos: usize) -> (r: Option<u32>)
    ensures
        match r {
            Some(value) => field_at(data@, pos as int, 4) == Some(value as nat),
            None => field_at(data@, pos as int, 4) is None,
        },
        r is Some <==> pos + 4 <= data.len(),
{
    if holds(data, pos, 4) {
        let field = slice_subrange(data.as_slice(), pos, pos + 4);
        assert(field@.subrange(0, 4) =~= field@);
        Some(read_u32(field))
    } else {
        None
    }
}

/// The two-byte big-endian number at `pos`, if `data` reaches that far.
pub fn u16_at(data: &Vec<u8>, pos: usize) -> (r: Option<u16>)
    ensures
        match r {
            Some(value) => field_at(data@, pos as int, 2) == Some(value as nat),
            None => field_at(data@, pos as int, 2) is None,
        },
        r is Some <==> pos + 2 <= data.len(),
{
    if holds(data, pos, 2) {
        let field = slice_subrange(data.as_slice(), pos, pos + 2);
        assert(field@.subrange(0, 2) =~= field@);
        Some(read_u16(field))
    } else {
        None
    }
}

/// The unsigned number with the bits of `value`.
pub fn i64_bits(value: i64) -> (bits: u64)
    ensures
        bits == pattern_of_i64(value),
{
    if value >= 0 {
        value as u64
    } else {
        (value - i64::MIN) as u64 + 0x8000_0000_0000_0000
    }
}

/// The signed number with the bits `bits`.
pub fn i64_from_bits(bits: u64) -> (value: i64)
    ensures
        value == i64_of_pattern(bits),
{
    if bits < 0x8000_0000_0000_0000 {
        bits as i64
    } else {
        (bits - 0x8000_0000_0000_0000) as i64 + i64::MIN
    }
}

/// The unsigned number with the bits of `value`.
pub fn i32_bits(value: i32) -> (bits: u32)
    ensures
        bits == pattern_of_i32(value),
{
    if value >= 0 {
        value as u32
    } else {
        (value - i32::MIN) as u32 + 0x8000_0000
    }
}

/// The signed number with the bits `bits`.
pub fn i32_from_bits(bits: u32) -> (value: i32)
    ensures
        value == i32_of_pattern(bits),
{
    if bits < 0x8000_0000 {
        bits as i32
    } else {
        (bits - 0x8000_0000) as i32 + i32::MIN
    }
}

} // verus!
