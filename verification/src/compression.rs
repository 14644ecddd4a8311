//! Bit-level codec: an unsigned integer of up to 32 bits stored at an arbitrary
//! bit position of a byte buffer.
//!
//! Bits are numbered from the least significant bit of the first byte: bit `i`
//! of a buffer is bit `i % 8` of byte `i / 8`. A value stored at `offset` with
//! `length` bits occupies the bits `offset .. offset + length`, its least
//! significant bit first.
use vstd::arithmetic::power2::{lemma2_to64, lemma_pow2_unfold, pow2};
use vstd::prelude::*;

verus! {

/// Bit `j` of a byte, `j` counted from the least significant bit.
pub open spec fn byte_bit(b: u8, j: u8) -> bool {
    (b >> j) & 1 == 1
}

/// Bit `k` of a value, `k` counted from the least significant bit.
pub open spec fn value_bit(v: u32, k: u32) -> bool {
    (v >> k) & 1 == 1
}

/// Bit `i` of a buffer.
pub open spec fn bit_of(line: Seq<u8>, i: int) -> bool {
    byte_bit(line[i / 8], (i % 8) as u8)
}

/// A byte with bit `j` set to `b` and every other bit kept.
pub open spec fn byte_with_bit(byte: u8, j: u8, b: bool) -> u8 {
    if b {
        byte | (1u8 << j)
    } else {
        byte & !(1u8 << j)
    }
}

/// A buffer with bit `i` set to `b` and every other bit kept.
pub open spec fn with_bit(line: Seq<u8>, i: int, b: bool) -> Seq<u8> {
    line.update(i / 8, byte_with_bit(line[i / 8], (i % 8) as u8, b))
}

/// The largest value that `length` bits can hold, for `length` up to 32.
pub open spec fn mask32(length: u32) -> u32 {
    if length >= 32 {
        0xFFFF_FFFFu32
    } else {
        ((1u32 << length) - 1) as u32
    }
}

/// The largest value that `length` bits can hold.
pub open spec fn low_mask(length: int) -> u32 {
    if length <= 0 {
        0u32
    } else if length >= 32 {
        0xFFFF_FFFFu32
    } else {
        mask32(length as u32)
    }
}

/// Whether the bits `offset .. offset + length` lie inside the buffer and are
/// no more than 32.
pub open spec fn in_bounds(line: Seq<u8>, offset: int, length: int) -> bool {
    &&& 0 <= offset
    &&& 0 <= length <= 32
    &&& offset + length <= 8 * line.len()
}

/// Two bit ranges that share no bit.
pub open spec fn disjoint(offset: int, length: int, other_offset: int, other_length: int) -> bool {
    offset + length <= other_offset || other_offset + other_length <= offset
}

/// The value stored in the bits `offset .. offset + length` of a buffer.
pub open spec fn decode_spec(line: Seq<u8>, offset: int, length: int) -> u32
    decreases length,
{
    if length <= 0 {
        0u32
    } else {
        let low = decode_spec(line, offset, length - 1);
        if bit_of(line, offset + length - 1) {
            low | (1u32 << ((length - 1) as u32))
        } else {
            low
        }
    }
}

/// The buffer after the low `length` bits of `value` are stored in its bits
/// `offset .. offset + length`.
pub open spec fn encode_spec(value: u32, line: Seq<u8>, offset: int, length: int) -> Seq<u8>
    decreases length,
{
    if length <= 0 {
        line
    } else {
        with_bit(
            encode_spec(value, line, offset, length - 1),
            offset + length - 1,
            value_bit(value, (length - 1) as u32),
        )
    }
}

proof fn lemma_shift_positive(length: u8)
    by (bit_vector)
    requires
        length < 32,
    ensures
        (1u32 << length) >= 1,
{
}

/// The largest value that `length` bits can hold.
pub fn max_raw(length: u8) -> (most: u32)
    ensures
        most == low_mask(length as int),
{
    if length == 0 {
        0
    } else if length >= 32 {
        u32::MAX
    } else {
        proof {
            lemma_shift_positive(length);
        }
        (1u32 << length) - 1
    }
}

/// The `t` low bits of a byte set, the others clear.
spec fn mask8(t: u8) -> u8 {
    if t == 0 {
        0u8
    } else {
        0xFFu8 >> ((8 - t) as u8)
    }
}

/// The `t` bits of `byte` from bit `shift` on, as a number.
spec fn chunk_of(byte: u8, shift: u8, t: u8) -> u8 {
    (byte >> shift) & mask8(t)
}

/// `byte` with its `t` bits from bit `shift` on replaced by the `t` bits of
/// `value` from bit `done` on.
spec fn patched(byte: u8, value: u32, shift: u8, t: u8, done: u8) -> u8 {
    (byte & !(mask8(t) << shift)) | (((((value >> done) & 0xFF) as u8) & mask8(t)) << shift)
}

proof fn lemma_chunk_step(prev: u32, byte: u8, shift: u8, t: u8, done: u8)
    by (bit_vector)
    requires
        shift + t < 8,
        done + t < 32,
    ensures
        byte_bit(byte, (shift + t) as u8) ==> (prev | ((chunk_of(byte, shift, t) as u32) << done)) | (
        1u32 << ((done + t) as u8)) == prev | ((chunk_of(byte, shift, (t + 1) as u8) as u32)
            << done),
        !byte_bit(byte, (shift + t) as u8) ==> prev | ((chunk_of(byte, shift, t) as u32) << done)
            == prev | ((chunk_of(byte, shift, (t + 1) as u8) as u32) << done),
{
}

proof fn lemma_chunk_none(prev: u32, byte: u8, shift: u8, done: u8)
    by (bit_vector)
    ensures
        prev | ((chunk_of(byte, shift, 0) as u32) << done) == prev,
{
}

proof fn lemma_patch_step(byte: u8, value: u32, shift: u8, t: u8, done: u8)
    by (bit_vector)
    requires
        shift + t < 8,
        done + t < 32,
    ensures
        byte_with_bit(
            patched(byte, value, shift, t, done),
            (shift + t) as u8,
            value_bit(value, (done + t) as u32),
        ) == patched(byte, value, shift, (t + 1) as u8, done),
{
}

proof fn lemma_patch_none(byte: u8, value: u32, shift: u8, done: u8)
    by (bit_vector)
    ensures
        patched(byte, value, shift, 0, done) == byte,
{
}

proof fn lemma_low_byte(value: u32, done: u8)
    by (bit_vector)
    ensures
        (value >> done) & 0xFF <= 0xFF,
{
}

/// What `t` more bits add to a decoded value, where they lie in one byte.
proof fn lemma_decode_chunk(line: Seq<u8>, offset: int, done: int, t: int)
    requires
        0 <= done,
        0 <= t,
        in_bounds(line, offset, done + t),
        (offset + done) % 8 + t <= 8,
    ensures
        decode_spec(line, offset, done + t) == decode_spec(line, offset, done) | ((chunk_of(
            line[(offset + done) / 8],
            ((offset + done) % 8) as u8,
            t as u8,
        ) as u32) << (done as u8)),
    decreases t,
{
    let prev = decode_spec(line, offset, done);
    let pos = offset + done;
    let byte = line[pos / 8];
    let shift = (pos % 8) as u8;
    if t > 0 {
        lemma_decode_chunk(line, offset, done, t - 1);
        lemma_chunk_step(prev, byte, shift, (t - 1) as u8, done as u8);
        assert((pos + t - 1) / 8 == pos / 8 && (pos + t - 1) % 8 == pos % 8 + t - 1);
    } else {
        lemma_chunk_none(prev, byte, shift, done as u8);
    }
}

/// What storing `t` more bits does to a buffer, where they lie in one byte.
proof fn lemma_encode_chunk(value: u32, line: Seq<u8>, offset: int, done: int, t: int)
    requires
        0 <= done,
        0 <= t,
        in_bounds(line, offset, done + t),
        offset + done < 8 * line.len(),
        (offset + done) % 8 + t <= 8,
    ensures
        encode_spec(value, line, offset, done + t) == encode_spec(value, line, offset, done).update(
            (offset + done) / 8,
            patched(
                encode_spec(value, line, offset, done)[(offset + done) / 8],
                value,
                ((offset + done) % 8) as u8,
                t as u8,
                done as u8,
            ),
        ),
    decreases t,
{
    let start = encode_spec(value, line, offset, done);
    let pos = offset + done;
    let byte = start[pos / 8];
    let shift = (pos % 8) as u8;
    lemma_encode_len(value, line, offset, done);
    if t > 0 {
        lemma_encode_chunk(value, line, offset, done, t - 1);
        lemma_patch_step(byte, value, shift, (t - 1) as u8, done as u8);
        assert((pos + t - 1) / 8 == pos / 8 && (pos + t - 1) % 8 == pos % 8 + t - 1);
        let part = start.update(pos / 8, patched(byte, value, shift, (t - 1) as u8, done as u8));
        assert(encode_spec(value, line, offset, done + t) == with_bit(
            part,
            pos + t - 1,
            value_bit(value, (done + t - 1) as u32),
        ));
        assert(with_bit(part, pos + t - 1, value_bit(value, (done + t - 1) as u32)) =~= start.update(
            pos / 8,
            patched(byte, value, shift, t as u8, done as u8),
        ));
    } else {
        lemma_patch_none(byte, value, shift, done as u8);
        assert(start.update(pos / 8, byte) =~= start);
    }
}

/// Reads the unsigned integer stored in the bits `offset .. offset + length`
/// of `line`.
pub fn decode(line: &[u8], offset: u8, length: u8) -> (value: u32)
    requires
        in_bounds(line@, offset as int, length as int),
    ensures
        value == decode_spec(line@, offset as int, length as int),
{
    let mut value: u32 = 0;
    let mut done: u8 = 0;
    while done < length
        invariant
            done <= length <= 32,
            offset + length <= 8 * line@.len(),
            value == decode_spec(line@, offset as int, done as int),
        decreases length - done,
    {
        // the bits of the field that lie in one byte are read at once
        let pos: usize = offset as usize + done as usize;
        let shift: u8 = (pos % 8) as u8;
        let take: u8 = if length - done < 8 - shift {
            length - done
        } else {
            8 - shift
        };
        let chunk: u8 = (line[pos / 8] >> shift) & (0xFFu8 >> (8 - take));
        proof {
            lemma_decode_chunk(line@, offset as int, done as int, take as int);
        }
        value = value | ((chunk as u32) << done);
        done = done + take;
    }
    value
}

/// Stores the low `length` bits of `value` in the bits
/// `offset .. offset + length` of `line`. No other bit changes.
pub fn encode(value: u32, line: &mut [u8], offset: u8, length: u8)
    requires
        in_bounds(old(line)@, offset as int, length as int),
    ensures
        final(line)@ == encode_spec(value, old(line)@, offset as int, length as int),
        final(line)@.len() == old(line)@.len(),
{
    let ghost before = line@;
    let mut done: u8 = 0;
    while done < length
        invariant
            done <= length <= 32,
            line@.len() == before.len(),
            offset + length <= 8 * before.len(),
            line@ == encode_spec(value, before, offset as int, done as int),
        decreases length - done,
    {
        // the bits of the field that lie in one byte are written at once
        let pos: usize = offset as usize + done as usize;
        let shift: u8 = (pos % 8) as u8;
        let take: u8 = if length - done < 8 - shift {
            length - done
        } else {
            8 - shift
        };
        let mask: u8 = 0xFFu8 >> (8 - take);
        proof {
            lemma_low_byte(value, done);
            lemma_encode_chunk(value, before, offset as int, done as int, take as int);
        }
        let bits: u8 = ((value >> done) & 0xFF) as u8;
        let cur: u8 = line[pos / 8];
        line[pos / 8] = (cur & !(mask << shift)) | ((bits & mask) << shift);
        done = done + take;
    }
}

proof fn lemma_byte_with_bit(byte: u8, j: u8, b: bool, other: u8)
    by (bit_vector)
    requires
        j < 8,
        other < 8,
    ensures
        byte_bit(byte_with_bit(byte, j, b), other) == (if other == j {
            b
        } else {
            byte_bit(byte, other)
        }),
{
}

proof fn lemma_byte_same_bit(byte: u8, j: u8)
    by (bit_vector)
    requires
        j < 8,
    ensures
        byte_with_bit(byte, j, byte_bit(byte, j)) == byte,
{
}

proof fn lemma_or_bit(x: u32, m: u32, k: u32)
    by (bit_vector)
    requires
        m < 32,
        k < 32,
    ensures
        value_bit(x | (1u32 << m), k) == (value_bit(x, k) || k == m),
        !value_bit(0u32, k),
{
}

proof fn lemma_or_bound(x: u32, m: u32)
    by (bit_vector)
    requires
        m < 32,
        x <= mask32(m),
    ensures
        x <= mask32((m + 1) as u32),
        (x | (1u32 << m)) <= mask32((m + 1) as u32),
{
}

proof fn lemma_mask_step(v: u32, m: u32)
    by (bit_vector)
    requires
        m < 32,
    ensures
        value_bit(v, m) ==> (v & mask32(m)) | (1u32 << m) == v & mask32((m + 1) as u32),
        !value_bit(v, m) ==> v & mask32(m) == v & mask32((m + 1) as u32),
{
}

proof fn lemma_mask_ends(v: u32)
    by (bit_vector)
    ensures
        mask32(0) == 0,
        v & 0u32 == 0,
        v & 0xFFFF_FFFFu32 == v,
{
}

proof fn lemma_mask_keeps(v: u32, m: u32)
    by (bit_vector)
    requires
        v <= mask32(m),
    ensures
        v & mask32(m) == v,
{
}

proof fn lemma_mask_doubles(m: u32)
    by (bit_vector)
    requires
        m < 32,
    ensures
        mask32((m + 1) as u32) == 2 * mask32(m) + 1,
        mask32(0) == 0,
{
}

/// Storing into a buffer keeps its length.
pub proof fn lemma_encode_len(value: u32, line: Seq<u8>, offset: int, length: int)
    requires
        in_bounds(line, offset, length),
    ensures
        encode_spec(value, line, offset, length).len() == line.len(),
    decreases length,
{
    if length > 0 {
        lemma_encode_len(value, line, offset, length - 1);
    }
}

/// Setting one bit of a buffer changes that bit and no other.
pub proof fn lemma_with_bit(line: Seq<u8>, i: int, b: bool, other: int)
    requires
        0 <= i < 8 * line.len(),
        0 <= other < 8 * line.len(),
    ensures
        with_bit(line, i, b).len() == line.len(),
        bit_of(with_bit(line, i, b), other) == (if other == i {
            b
        } else {
            bit_of(line, other)
        }),
{
    if other / 8 == i / 8 {
        lemma_byte_with_bit(line[i / 8], (i % 8) as u8, b, (other % 8) as u8);
    }
}

/// After storing a value, each bit of the target range holds the matching bit
/// of the value, and each bit outside the range is as it was.
pub proof fn lemma_encode_bits(value: u32, line: Seq<u8>, offset: int, length: int, i: int)
    requires
        in_bounds(line, offset, length),
        0 <= i < 8 * line.len(),
    ensures
        encode_spec(value, line, offset, length).len() == line.len(),
        bit_of(encode_spec(value, line, offset, length), i) == (if offset <= i < offset + length {
            value_bit(value, (i - offset) as u32)
        } else {
            bit_of(line, i)
        }),
    decreases length,
{
    if length > 0 {
        lemma_encode_bits(value, line, offset, length - 1, i);
        lemma_with_bit(
            encode_spec(value, line, offset, length - 1),
            offset + length - 1,
            value_bit(value, (length - 1) as u32),
            i,
        );
    }
}

/// Bit `k` of a decoded value is bit `offset + k` of the buffer for `k` below
/// `length`, and clear from `length` on.
pub proof fn lemma_decode_bits(line: Seq<u8>, offset: int, length: int, k: int)
    requires
        in_bounds(line, offset, length),
        0 <= k < 32,
    ensures
        value_bit(decode_spec(line, offset, length), k as u32) == (k < length && bit_of(
            line,
            offset + k,
        )),
    decreases length,
{
    if length > 0 {
        lemma_decode_bits(line, offset, length - 1, k);
        lemma_or_bit(decode_spec(line, offset, length - 1), (length - 1) as u32, k as u32);
    } else {
        lemma_or_bit(0u32, 0u32, k as u32);
    }
}

/// A decoded value fits in `length` bits.
pub proof fn lemma_decode_bound(line: Seq<u8>, offset: int, length: int)
    requires
        in_bounds(line, offset, length),
    ensures
        decode_spec(line, offset, length) <= low_mask(length),
    decreases length,
{
    if length > 0 {
        lemma_decode_bound(line, offset, length - 1);
        lemma_mask_ends(0u32);
        lemma_or_bound(decode_spec(line, offset, length - 1), (length - 1) as u32);
    }
}

/// The largest value that `length` bits can hold is `2^length - 1`.
pub proof fn lemma_low_mask_pow2(length: int)
    requires
        0 <= length <= 32,
    ensures
        low_mask(length) + 1 == pow2(length as nat),
    decreases length,
{
    if length > 0 {
        lemma_low_mask_pow2(length - 1);
        lemma_mask_doubles((length - 1) as u32);
        lemma_pow2_unfold(length as nat);
    } else {
        lemma2_to64();
    }
}

proof fn lemma_decode_of_encoded(value: u32, line: Seq<u8>, offset: int, length: int, k: int)
    requires
        in_bounds(line, offset, length),
        0 <= k <= length,
    ensures
        decode_spec(encode_spec(value, line, offset, length), offset, k) == value & low_mask(k),
    decreases k,
{
    if k > 0 {
        lemma_decode_of_encoded(value, line, offset, length, k - 1);
        lemma_encode_bits(value, line, offset, length, offset + k - 1);
        lemma_mask_step(value, (k - 1) as u32);
    }
    lemma_mask_ends(value);
}

/// Reading back what was stored gives the low `length` bits of the value, and
/// the value itself where it fits in `length` bits.
pub proof fn lemma_encode_decode(value: u32, line: Seq<u8>, offset: int, length: int)
    requires
        in_bounds(line, offset, length),
    ensures
        decode_spec(encode_spec(value, line, offset, length), offset, length) == value & low_mask(
            length,
        ),
        value <= low_mask(length) ==> decode_spec(
            encode_spec(value, line, offset, length),
            offset,
            length,
        ) == value,
{
    lemma_decode_of_encoded(value, line, offset, length, length);
    lemma_mask_ends(value);
    if value <= low_mask(length) && 0 < length < 32 {
        lemma_mask_keeps(value, length as u32);
    }
}

proof fn lemma_encode_of_decoded(line: Seq<u8>, offset: int, length: int, k: int)
    requires
        in_bounds(line, offset, length),
        0 <= k <= length,
    ensures
        encode_spec(decode_spec(line, offset, length), line, offset, k) == line,
    decreases k,
{
    if k > 0 {
        lemma_encode_of_decoded(line, offset, length, k - 1);
        lemma_decode_bits(line, offset, length, k - 1);
        let i = offset + k - 1;
        lemma_byte_same_bit(line[i / 8], (i % 8) as u8);
        assert(with_bit(line, i, bit_of(line, i)) =~= line);
    }
}

/// Storing the value that was just read at the same position leaves the
/// buffer as it was.
pub proof fn lemma_decode_encode(line: Seq<u8>, offset: int, length: int)
    requires
        in_bounds(line, offset, length),
    ensures
        encode_spec(decode_spec(line, offset, length), line, offset, length) == line,
{
    lemma_encode_of_decoded(line, offset, length, length);
}

/// Storing a value changes no value stored in a range that shares no bit
/// with the target range, even where both ranges share a byte.
pub proof fn lemma_encode_keeps_disjoint(
    value: u32,
    line: Seq<u8>,
    offset: int,
    length: int,
    other_offset: int,
    other_length: int,
)
    requires
        in_bounds(line, offset, length),
        in_bounds(line, other_offset, other_length),
        disjoint(offset, length, other_offset, other_length),
    ensures
        decode_spec(encode_spec(value, line, offset, length), other_offset, other_length)
            == decode_spec(line, other_offset, other_length),
    decreases other_length,
{
    if other_length > 0 {
        lemma_encode_keeps_disjoint(value, line, offset, length, other_offset, other_length - 1);
        lemma_encode_bits(value, line, offset, length, other_offset + other_length - 1);
    }
}

/// Setting one bit changes no value stored in a range that does not hold
/// that bit.
pub proof fn lemma_with_bit_keeps_disjoint(
    line: Seq<u8>,
    i: int,
    b: bool,
    other_offset: int,
    other_length: int,
)
    requires
        0 <= i < 8 * line.len(),
        in_bounds(line, other_offset, other_length),
        i < other_offset || other_offset + other_length <= i,
    ensures
        decode_spec(with_bit(line, i, b), other_offset, other_length) == decode_spec(
            line,
            other_offset,
            other_length,
        ),
    decreases other_length,
{
    if other_length > 0 {
        lemma_with_bit_keeps_disjoint(line, i, b, other_offset, other_length - 1);
        lemma_with_bit(line, i, b, other_offset + other_length - 1);
    }
}

} // verus!
