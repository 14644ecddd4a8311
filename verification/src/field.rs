//! The fields of a record: a bit position, and the rule that turns the packed
//! integer found there into a typed value and back.
use crate::compression::{
    bit_of, decode, decode_spec, disjoint, encode, encode_spec, in_bounds, lemma_decode_bound,
    lemma_encode_bits, lemma_encode_decode, lemma_encode_keeps_disjoint, lemma_with_bit,
    lemma_with_bit_keeps_disjoint, low_mask, max_raw, with_bit,
};
use crate::fixed::{
    div_round, fits_i64, lemma_round_div_bounds, lemma_round_div_flip, lemma_round_div_multiple,
    magnitude, round_div, Fixed,
};
use vstd::prelude::*;

verus! {

/// The number of a field within its record.
pub type FieldId = u8;

/// A quantized field: `length` bits at bit `offset` hold an unsigned integer
/// `raw`, which stands for the number `raw * decode_scale + decode_add`.
#[derive(Clone, Copy, Debug, PartialEq, Eq, Structural)]
pub struct Field {
    pub offset: u8,
    pub length: u8,
    pub decode_scale: Fixed,
    pub decode_add: Fixed,
}

/// One bit at bit `offset` that holds a truth value.
#[derive(Clone, Copy, Debug, PartialEq, Eq, Structural)]
pub struct BoolField {
    pub offset: u8,
}

/// `num::cast` from `i128` to `u32`: `Some` of the same number where it lies
/// in `0 ..= u32::MAX`, `None` for every other number.
#[verifier::external_body]
fn cast_u32(n: i128) -> (r: Option<u32>)
    ensures
        r is Some <==> 0 <= n <= u32::MAX,
        r is Some ==> r->0 == n,
{
    num::cast::<i128, u32>(n)
}

proof fn lemma_scaled_between(raw: int, most: int, scale: int)
    by (nonlinear_arith)
    requires
        0 <= raw <= most,
    ensures
        scale >= 0 ==> 0 <= raw * scale <= most * scale,
        scale <= 0 ==> most * scale <= raw * scale <= 0,
{
}

impl Field {
    /// The field is 1 to 32 bits wide, its scale is not zero, and every number
    /// it can stand for is one that a `Fixed` can hold.
    pub open spec fn wf(&self) -> bool {
        &&& 1 <= self.length <= 32
        &&& self.decode_scale@ != 0
        &&& fits_i64(self.decode_add@ + low_mask(self.length as int) * self.decode_scale@)
    }

    /// The number that the packed integer `raw` stands for.
    pub open spec fn value_of(&self, raw: u32) -> int {
        raw * self.decode_scale@ + self.decode_add@
    }

    /// The packed integer that stands for `value`: the nearest integer to
    /// `(value - decode_add) / decode_scale`, held to what `length` bits can
    /// store.
    pub open spec fn raw_of(&self, value: int) -> u32 {
        let nearest = round_div(value - self.decode_add@, self.decode_scale@);
        if nearest <= 0 {
            0u32
        } else if nearest >= low_mask(self.length as int) {
            low_mask(self.length as int)
        } else {
            nearest as u32
        }
    }

    /// Whether the field is well formed.
    pub fn is_valid(&self) -> (ok: bool)
        ensures
            ok == self.wf(),
    {
        if self.length < 1 || self.length > 32 || self.decode_scale.bits == 0 {
            return false;
        }
        let most: i128 = max_raw(self.length) as i128;
        let scale: i128 = self.decode_scale.bits as i128;
        assert(-0x8000_0000_0000_0000_0000_0000 <= most * scale <= 0x8000_0000_0000_0000_0000_0000)
            by (nonlinear_arith)
            requires
                0 <= most <= 0xFFFF_FFFF,
                -0x8000_0000_0000_0000 <= scale <= 0x8000_0000_0000_0000,
        ;
        let last: i128 = self.decode_add.bits as i128 + most * scale;
        i64::MIN as i128 <= last && last <= i64::MAX as i128
    }

    /// The number that the packed integer `raw` stands for.
    pub fn dequantize(&self, raw: u32) -> (value: Fixed)
        requires
            self.wf(),
            raw <= low_mask(self.length as int),
        ensures
            value@ == self.value_of(raw),
    {
        let scale: i128 = self.decode_scale.bits as i128;
        proof {
            lemma_scaled_between(raw as int, low_mask(self.length as int) as int, scale as int);
        }
        let value: i128 = (raw as i128) * scale + self.decode_add.bits as i128;
        Fixed { bits: value as i64 }
    }

    /// The packed integer that stands for `numb`.
    pub fn quantize(&self, numb: Fixed) -> (raw: u32)
        requires
            self.wf(),
        ensures
            raw == self.raw_of(numb@),
            raw <= low_mask(self.length as int),
    {
        let most: u32 = max_raw(self.length);
        let nearest: i128 = div_round(
            numb.bits as i128 - self.decode_add.bits as i128,
            self.decode_scale.bits as i128,
        );
        match cast_u32(nearest) {
            Some(raw) => if raw > most {
                most
            } else {
                raw
            },
            None => if nearest < 0 {
                0
            } else {
                most
            },
        }
    }

    /// Reads the field from `line`.
    pub fn decode(&self, line: &[u8]) -> (value: Fixed)
        requires
            self.wf(),
            in_bounds(line@, self.offset as int, self.length as int),
        ensures
            value@ == self.value_of(decode_spec(line@, self.offset as int, self.length as int)),
    {
        let int_repr: u32 = decode(line, self.offset, self.length);
        proof {
            lemma_decode_bound(line@, self.offset as int, self.length as int);
        }
        self.dequantize(int_repr)
    }

    /// Writes `numb` to the field in `line`: the field then holds
    /// `raw_of(numb)`, and no bit outside the field changes.
    pub fn encode(&self, numb: Fixed, line: &mut [u8])
        requires
            self.wf(),
            in_bounds(old(line)@, self.offset as int, self.length as int),
        ensures
            final(line)@ == encode_spec(
                self.raw_of(numb@),
                old(line)@,
                self.offset as int,
                self.length as int,
            ),
            final(line)@.len() == old(line)@.len(),
    {
        let to_encode: u32 = self.quantize(numb);
        encode(to_encode, line, self.offset, self.length);
    }
}

impl Field {
    /// How far `value` lies from `decode_add` in the direction in which the
    /// field's numbers grow with the packed integer.
    pub open spec fn along(&self, value: int) -> int {
        if self.decode_scale@ < 0 {
            self.decode_add@ - value
        } else {
            value - self.decode_add@
        }
    }

    /// Whether `value` lies between the least and the greatest number that the
    /// field can stand for.
    pub open spec fn spans(&self, value: int) -> bool {
        0 <= self.along(value) <= low_mask(self.length as int) * magnitude(self.decode_scale@)
    }

    /// Whether `value` lies no more than one step outside the numbers that the
    /// field can stand for.
    pub open spec fn reaches(&self, value: int) -> bool {
        -magnitude(self.decode_scale@) <= self.along(value) <= (low_mask(self.length as int) + 1)
            * magnitude(self.decode_scale@)
    }

    /// A packed integer that fits the field comes back unchanged when the
    /// number it stands for is quantized again.
    pub proof fn lemma_raw_round_trip(self, raw: u32)
        requires
            self.wf(),
            raw <= low_mask(self.length as int),
        ensures
            self.raw_of(self.value_of(raw)) == raw,
    {
        lemma_round_div_multiple(raw as int, self.decode_scale@);
    }

    /// A number that the field reaches comes back within one step of itself;
    /// one that the field spans, within half a step.
    pub proof fn lemma_value_round_trip(self, value: int)
        requires
            self.wf(),
            self.reaches(value),
        ensures
            magnitude(value - self.value_of(self.raw_of(value))) <= magnitude(self.decode_scale@),
            self.spans(value) ==> 2 * magnitude(value - self.value_of(self.raw_of(value)))
                <= magnitude(self.decode_scale@),
    {
        let step = magnitude(self.decode_scale@);
        let along = self.along(value);
        let most = low_mask(self.length as int) as int;
        let nearest = round_div(value - self.decode_add@, self.decode_scale@);
        let raw = self.raw_of(value) as int;
        if self.decode_scale@ < 0 {
            lemma_round_div_flip(value - self.decode_add@, self.decode_scale@);
        }
        assert(nearest == round_div(along, step));
        lemma_round_div_bounds(along, step);
        let off = along - raw * step;
        assert(-step <= off <= step && (self.spans(value) ==> -step <= 2 * off <= step))
            by (nonlinear_arith)
            requires
                step > 0,
                0 <= most,
                2 * along - step <= 2 * (nearest * step) <= 2 * along + step,
                -step <= along <= (most + 1) * step,
                self.spans(value) ==> 0 <= along <= most * step,
                raw == (if nearest <= 0 {
                    0
                } else if nearest >= most {
                    most
                } else {
                    nearest
                }),
                off == along - raw * step,
        ;
        assert(magnitude(value - self.value_of(raw as u32)) == magnitude(off)) by (nonlinear_arith)
            requires
                off == along - raw * step,
                step == magnitude(self.decode_scale@),
                along == self.along(value),
                self.value_of(raw as u32) == raw * self.decode_scale@ + self.decode_add@,
        ;
    }

    /// What is read from the field right after `value` was written to it is
    /// the number that `raw_of(value)` stands for.
    pub proof fn lemma_encode_decode(self, value: int, line: Seq<u8>)
        requires
            self.wf(),
            in_bounds(line, self.offset as int, self.length as int),
        ensures
            decode_spec(
                encode_spec(self.raw_of(value), line, self.offset as int, self.length as int),
                self.offset as int,
                self.length as int,
            ) == self.raw_of(value),
    {
        lemma_encode_decode(self.raw_of(value), line, self.offset as int, self.length as int);
    }
}

impl BoolField {
    /// Reads the flag from `line`.
    pub fn decode(&self, line: &[u8]) -> (flag: bool)
        requires
            in_bounds(line@, self.offset as int, 1),
        ensures
            flag == bit_of(line@, self.offset as int),
    {
        let byte: u8 = line[(self.offset / 8) as usize];
        (byte >> (self.offset % 8)) & 1 == 1
    }

    /// Sets the flag's bit in `line` when `flag` is true and clears it when
    /// `flag` is false. No other bit changes.
    pub fn encode(&self, flag: bool, line: &mut [u8])
        requires
            in_bounds(old(line)@, self.offset as int, 1),
        ensures
            final(line)@ == with_bit(old(line)@, self.offset as int, flag),
            final(line)@.len() == old(line)@.len(),
    {
        let at: usize = (self.offset / 8) as usize;
        let cur: u8 = line[at];
        if flag {
            line[at] = cur | (1u8 << (self.offset % 8));
        } else {
            line[at] = cur & !(1u8 << (self.offset % 8));
        }
    }
}

/// A value as a field holds it: a flag, or a number of one of two widths.
#[derive(Clone, Copy, Debug, PartialEq, Eq, Structural)]
pub enum TypedValue {
    Bool(bool),
    F32(Fixed),
    F64(Fixed),
}

/// A field of one of the three kinds.
#[derive(Clone, Copy, Debug, PartialEq, Eq, Structural)]
pub enum FieldVariant {
    Bool(BoolField),
    F32(Field),
    F64(Field),
}

/// Why a value was not written.
#[derive(Clone, Copy, Debug, PartialEq, Eq, Structural)]
pub enum EncodeError {
    /// The value's kind is not the field's kind.
    TypeMismatch,
}

impl FieldVariant {
    /// A flag is always well formed; a quantized field as [`Field::wf`] says.
    pub open spec fn wf(&self) -> bool {
        match *self {
            FieldVariant::Bool(_) => true,
            FieldVariant::F32(f) => f.wf(),
            FieldVariant::F64(f) => f.wf(),
        }
    }

    /// The number of bits the field occupies: 1 for a flag.
    pub open spec fn spec_bit_length(&self) -> u8 {
        match *self {
            FieldVariant::Bool(_) => 1u8,
            FieldVariant::F32(f) => f.length,
            FieldVariant::F64(f) => f.length,
        }
    }

    /// The first bit the field occupies.
    pub open spec fn spec_bit_offset(&self) -> u8 {
        match *self {
            FieldVariant::Bool(b) => b.offset,
            FieldVariant::F32(f) => f.offset,
            FieldVariant::F64(f) => f.offset,
        }
    }

    /// The same field at another bit offset.
    pub open spec fn at_offset(&self, offset: u8) -> FieldVariant {
        match *self {
            FieldVariant::Bool(b) => FieldVariant::Bool(BoolField { offset }),
            FieldVariant::F32(f) => FieldVariant::F32(Field { offset, ..f }),
            FieldVariant::F64(f) => FieldVariant::F64(Field { offset, ..f }),
        }
    }

    /// Whether the field's bits lie inside `line`.
    pub open spec fn fits(&self, line: Seq<u8>) -> bool {
        in_bounds(line, self.spec_bit_offset() as int, self.spec_bit_length() as int)
    }

    /// Whether `value` is of the field's kind.
    pub open spec fn accepts(&self, value: TypedValue) -> bool {
        match (*self, value) {
            (FieldVariant::Bool(_), TypedValue::Bool(_)) => true,
            (FieldVariant::F32(_), TypedValue::F32(_)) => true,
            (FieldVariant::F64(_), TypedValue::F64(_)) => true,
            _ => false,
        }
    }

    /// The value that the field holds in `line`.
    pub open spec fn decoded(&self, line: Seq<u8>) -> TypedValue {
        match *self {
            FieldVariant::Bool(b) => TypedValue::Bool(bit_of(line, b.offset as int)),
            FieldVariant::F32(f) => TypedValue::F32(
                Fixed {
                    bits: f.value_of(decode_spec(line, f.offset as int, f.length as int)) as i64,
                },
            ),
            FieldVariant::F64(f) => TypedValue::F64(
                Fixed {
                    bits: f.value_of(decode_spec(line, f.offset as int, f.length as int)) as i64,
                },
            ),
        }
    }

    /// `line` after a value of the field's kind is written to the field.
    pub open spec fn encoded(&self, value: TypedValue, line: Seq<u8>) -> Seq<u8> {
        match (*self, value) {
            (FieldVariant::Bool(b), TypedValue::Bool(flag)) => with_bit(line, b.offset as int, flag),
            (FieldVariant::F32(f), TypedValue::F32(numb)) => encode_spec(
                f.raw_of(numb@),
                line,
                f.offset as int,
                f.length as int,
            ),
            (FieldVariant::F64(f), TypedValue::F64(numb)) => encode_spec(
                f.raw_of(numb@),
                line,
                f.offset as int,
                f.length as int,
            ),
            _ => line,
        }
    }

    /// Whether the field is well formed.
    pub fn is_valid(&self) -> (ok: bool)
        ensures
            ok == self.wf(),
    {
        match self {
            FieldVariant::Bool(_) => true,
            FieldVariant::F32(f) => f.is_valid(),
            FieldVariant::F64(f) => f.is_valid(),
        }
    }

    /// Reads the field from `line`.
    pub fn decode(&self, line: &[u8]) -> (value: TypedValue)
        requires
            self.wf(),
            self.fits(line@),
        ensures
            value == self.decoded(line@),
            self.accepts(value),
    {
        match self {
            FieldVariant::Bool(b) => TypedValue::Bool(b.decode(line)),
            FieldVariant::F32(f) => TypedValue::F32(f.decode(line)),
            FieldVariant::F64(f) => TypedValue::F64(f.decode(line)),
        }
    }

    /// Writes `value` to the field in `line`. A value of another kind than the
    /// field's is refused, and `line` is then left as it was.
    pub fn encode(&self, value: TypedValue, line: &mut [u8]) -> (done: Result<(), EncodeError>)
        requires
            self.wf(),
            self.fits(old(line)@),
        ensures
            done is Ok <==> self.accepts(value),
            done is Ok ==> final(line)@ == self.encoded(value, old(line)@),
            done is Err ==> done == Err::<(), EncodeError>(EncodeError::TypeMismatch) && final(line)@
                == old(line)@,
            final(line)@.len() == old(line)@.len(),
    {
        match (self, value) {
            (FieldVariant::Bool(b), TypedValue::Bool(flag)) => {
                b.encode(flag, line);
                Ok(())
            },
            (FieldVariant::F32(f), TypedValue::F32(numb)) => {
                f.encode(numb, line);
                Ok(())
            },
            (FieldVariant::F64(f), TypedValue::F64(numb)) => {
                f.encode(numb, line);
                Ok(())
            },
            _ => Err(EncodeError::TypeMismatch),
        }
    }

    /// The number of bits the field occupies: 1 for a flag.
    #[verifier::when_used_as_spec(spec_bit_length)]
    pub fn bit_length(&self) -> (bits: u8)
        ensures
            bits == self.spec_bit_length(),
    {
        match self {
            FieldVariant::Bool(_) => 1,
            FieldVariant::F32(f) => f.length,
            FieldVariant::F64(f) => f.length,
        }
    }

    /// The first bit the field occupies.
    #[verifier::when_used_as_spec(spec_bit_offset)]
    pub fn bit_offset(&self) -> (offset: u8)
        ensures
            offset == self.spec_bit_offset(),
    {
        match self {
            FieldVariant::Bool(b) => b.offset,
            FieldVariant::F32(f) => f.offset,
            FieldVariant::F64(f) => f.offset,
        }
    }

    /// Moves the field to bit `offset`; nothing else about it changes.
    pub fn set_bit_offset(&mut self, offset: u8)
        ensures
            *final(self) == old(self).at_offset(offset),
    {
        match self {
            FieldVariant::Bool(b) => {
                b.offset = offset;
            },
            FieldVariant::F32(f) => {
                f.offset = offset;
            },
            FieldVariant::F64(f) => {
                f.offset = offset;
            },
        }
    }
}

/// A field of a record, with its number and its name.
#[derive(Clone, Debug, PartialEq)]
pub struct MetaField {
    pub id: FieldId,
    pub name: String,
    pub field: FieldVariant,
}

impl MetaField {
    /// Reads the field from `line`.
    pub fn decode(&self, line: &[u8]) -> (value: TypedValue)
        requires
            self.field.wf(),
            self.field.fits(line@),
        ensures
            value == self.field.decoded(line@),
            self.field.accepts(value),
    {
        self.field.decode(line)
    }

    /// Writes `value` to the field in `line`. A value of another kind than the
    /// field's is refused, and `line` is then left as it was.
    pub fn encode(&self, value: TypedValue, line: &mut [u8]) -> (done: Result<(), EncodeError>)
        requires
            self.field.wf(),
            self.field.fits(old(line)@),
        ensures
            done is Ok <==> self.field.accepts(value),
            done is Ok ==> final(line)@ == self.field.encoded(value, old(line)@),
            done is Err ==> done == Err::<(), EncodeError>(EncodeError::TypeMismatch) && final(line)@
                == old(line)@,
            final(line)@.len() == old(line)@.len(),
    {
        self.field.encode(value, line)
    }
}

impl From<MetaField> for FieldVariant {
    /// The field without its number and name.
    fn from(meta: MetaField) -> (field: FieldVariant) {
        meta.field
    }
}

impl vstd::std_specs::convert::FromSpecImpl<MetaField> for FieldVariant {
    open spec fn obeys_from_spec() -> bool {
        true
    }

    open spec fn from_spec(meta: MetaField) -> FieldVariant {
        meta.field
    }
}

impl FieldVariant {
    /// The bits `spec_bit_offset() .. spec_bit_offset() + spec_bit_length()`
    /// of two fields are apart.
    pub open spec fn apart(&self, other: FieldVariant) -> bool {
        disjoint(
            self.spec_bit_offset() as int,
            self.spec_bit_length() as int,
            other.spec_bit_offset() as int,
            other.spec_bit_length() as int,
        )
    }

    /// Writing to a field keeps the buffer's length and every bit outside
    /// the field.
    pub proof fn lemma_encode_outside(self, value: TypedValue, line: Seq<u8>, i: int)
        requires
            self.wf(),
            self.fits(line),
            0 <= i < 8 * line.len(),
            !(self.spec_bit_offset() <= i < self.spec_bit_offset() + self.spec_bit_length()),
        ensures
            self.encoded(value, line).len() == line.len(),
            bit_of(self.encoded(value, line), i) == bit_of(line, i),
    {
        match (self, value) {
            (FieldVariant::Bool(b), TypedValue::Bool(flag)) => {
                lemma_with_bit(line, b.offset as int, flag, i);
            },
            (FieldVariant::F32(f), TypedValue::F32(numb)) => {
                lemma_encode_bits(f.raw_of(numb@), line, f.offset as int, f.length as int, i);
            },
            (FieldVariant::F64(f), TypedValue::F64(numb)) => {
                lemma_encode_bits(f.raw_of(numb@), line, f.offset as int, f.length as int, i);
            },
            _ => {},
        }
    }

    /// Writing to one field changes nothing of what another field holds, as
    /// long as the two share no bit; they may share a byte.
    pub proof fn lemma_encode_keeps_other(self, value: TypedValue, line: Seq<u8>, other: FieldVariant)
        requires
            self.wf(),
            other.wf(),
            self.fits(line),
            other.fits(line),
            self.apart(other),
        ensures
            other.decoded(self.encoded(value, line)) == other.decoded(line),
    {
        let o = other.spec_bit_offset() as int;
        let n = other.spec_bit_length() as int;
        self.lemma_encode_outside(value, line, o);
        match (self, value) {
            (FieldVariant::Bool(b), TypedValue::Bool(flag)) => {
                lemma_with_bit_keeps_disjoint(line, b.offset as int, flag, o, n);
            },
            (FieldVariant::F32(f), TypedValue::F32(numb)) => {
                lemma_encode_keeps_disjoint(
                    f.raw_of(numb@),
                    line,
                    f.offset as int,
                    f.length as int,
                    o,
                    n,
                );
            },
            (FieldVariant::F64(f), TypedValue::F64(numb)) => {
                lemma_encode_keeps_disjoint(
                    f.raw_of(numb@),
                    line,
                    f.offset as int,
                    f.length as int,
                    o,
                    n,
                );
            },
            _ => {},
        }
    }

    /// What is read from a field right after a value of its kind was written
    /// to it: the flag itself, or the number that the written number's packed
    /// integer stands for.
    pub proof fn lemma_encode_decode(self, value: TypedValue, line: Seq<u8>)
        requires
            self.wf(),
            self.fits(line),
            self.accepts(value),
        ensures
            self.decoded(self.encoded(value, line)) == (match (self, value) {
                (FieldVariant::F32(f), TypedValue::F32(numb)) => TypedValue::F32(
                    Fixed { bits: f.value_of(f.raw_of(numb@)) as i64 },
                ),
                (FieldVariant::F64(f), TypedValue::F64(numb)) => TypedValue::F64(
                    Fixed { bits: f.value_of(f.raw_of(numb@)) as i64 },
                ),
                _ => value,
            }),
    {
        match (self, value) {
            (FieldVariant::Bool(b), TypedValue::Bool(flag)) => {
                lemma_with_bit(line, b.offset as int, flag, b.offset as int);
            },
            (FieldVariant::F32(f), TypedValue::F32(numb)) => {
                f.lemma_encode_decode(numb@, line);
            },
            (FieldVariant::F64(f), TypedValue::F64(numb)) => {
                f.lemma_encode_decode(numb@, line);
            },
            _ => {},
        }
    }
}

} // verus!
