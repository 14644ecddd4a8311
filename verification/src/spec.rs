//! Field descriptions, and the compiler that lays them out as a record.
//!
//! A record is described by an ordered list of field descriptions. The
//! compiler turns each into a field, gives the fields the numbers 0, 1, 2, ...
//! in that order, and packs them one after the other from bit 0.
use crate::field::{BoolField, Field, FieldId, FieldVariant, MetaField};
use crate::compression::low_mask;
use crate::fixed::{div_round, fits_i64, lemma_round_div_is, round_div, Fixed, ONE};
use vstd::arithmetic::power2::pow2;
use vstd::prelude::*;

verus! {

/// A quantized field described by its bit width and the range of numbers it
/// is to cover.
#[derive(Clone, Debug, PartialEq)]
pub struct FieldLength {
    pub name: String,
    pub min_value: Fixed,
    pub max_value: Fixed,
    pub numb_of_bits: u8,
}

/// A quantized field described by the range of numbers it is to cover and
/// the step it is to resolve.
#[derive(Clone, Debug, PartialEq)]
pub struct FieldResolution {
    pub name: String,
    pub min_value: Fixed,
    pub max_value: Fixed,
    pub resolution: Fixed,
}

/// A quantized field given in full.
#[derive(Clone, Debug, PartialEq)]
pub struct FieldManual {
    pub name: String,
    pub length: u8,
    pub decode_scale: Fixed,
    pub decode_add: Fixed,
}

/// A one-bit flag.
#[derive(Clone, Debug, PartialEq)]
pub struct FieldBool {
    pub name: String,
}

/// The description of one field.
#[derive(Clone, Debug, PartialEq)]
pub enum FieldSpec {
    BitLength(FieldLength),
    Resolution(FieldResolution),
    Manual(FieldManual),
    Bool(FieldBool),
}

/// The description of a record.
#[derive(Clone, Debug, PartialEq)]
pub struct MetaDataSpec {
    pub name: String,
    pub description: String,
    pub fields: Vec<FieldSpec>,
}

/// Why a description was not compiled.
#[derive(Clone, Debug, PartialEq)]
pub enum CompileError {
    /// The description lists no field.
    EmptyLayout,
    /// The description lists more than 256 fields. The first 256 were
    /// compiled and are handed back; the others were dropped.
    LayoutOverflow(Vec<MetaField>),
    /// A resolution is not positive, or not smaller than the range it is to
    /// resolve.
    InvalidResolution,
    /// A field would be narrower than 1 bit or wider than 32 bits.
    InvalidLength,
    /// A field's scale would be zero.
    ZeroScale,
    /// A field's scale, or a number the field would stand for, is more than
    /// a `Fixed` can hold.
    Unrepresentable,
    /// A field would start beyond bit 255.
    OffsetOverflow,
    /// No source of entropy was available for the record key.
    NoEntropy,
}

/// The least `n` with `step * 2^n >= range`, for a positive `step`: the number
/// of bits needed to tell apart the steps of a range.
pub open spec fn bits_for(range: int, step: int) -> nat
    decreases
        (if range > step {
            range - step
        } else {
            0
        }),
{
    if step <= 0 || range <= step {
        0
    } else {
        1 + bits_for(range, 2 * step)
    }
}

/// `bits_for` is the base-2 logarithm of `range / step`, rounded up.
pub proof fn lemma_bits_for(range: int, step: int)
    requires
        0 < step < range,
    ensures
        bits_for(range, step) >= 1,
        step * pow2(bits_for(range, step)) >= range,
        step * pow2((bits_for(range, step) - 1) as nat) < range,
    decreases range - step,
{
    vstd::arithmetic::power2::lemma2_to64();
    if range <= 2 * step {
        assert(bits_for(range, 2 * step) == 0);
        assert(bits_for(range, step) == 1);
        assert(step * pow2(0) == step) by (nonlinear_arith)
            requires
                pow2(0) == 1,
        ;
        assert(step * pow2(1) == 2 * step) by (nonlinear_arith)
            requires
                pow2(1) == 2,
        ;
    } else {
        lemma_bits_for(range, 2 * step);
        let n = bits_for(range, 2 * step);
        assert(bits_for(range, step) == n + 1);
        vstd::arithmetic::power2::lemma_pow2_unfold(n + 1);
        vstd::arithmetic::power2::lemma_pow2_unfold(n);
        assert(step * pow2(n + 1) == 2 * step * pow2(n)) by (nonlinear_arith)
            requires
                pow2(n + 1) == 2 * pow2(n),
        ;
        assert(step * pow2(n) == 2 * step * pow2((n - 1) as nat)) by (nonlinear_arith)
            requires
                pow2(n) == 2 * pow2((n - 1) as nat),
        ;
    }
}

/// The quantized field of `length` bits at bit 0 with the given scale and
/// offset, where that field is well formed.
pub open spec fn quantized(length: u8, scale: int, add: int) -> Result<FieldVariant, CompileError> {
    let field = Field {
        offset: 0,
        length,
        decode_scale: Fixed { bits: scale as i64 },
        decode_add: Fixed { bits: add as i64 },
    };
    if !(1 <= length <= 32) {
        Err(CompileError::InvalidLength)
    } else if scale == 0 {
        Err(CompileError::ZeroScale)
    } else if !fits_i64(scale) || !field.wf() {
        Err(CompileError::Unrepresentable)
    } else {
        Ok(FieldVariant::F32(field))
    }
}

impl FieldSpec {
    /// The name given to the field.
    pub open spec fn label(&self) -> Seq<char> {
        match *self {
            FieldSpec::BitLength(f) => f.name@,
            FieldSpec::Resolution(f) => f.name@,
            FieldSpec::Manual(f) => f.name@,
            FieldSpec::Bool(f) => f.name@,
        }
    }

    /// The field that the description asks for, placed at bit 0, or the
    /// reason why there is no such field.
    ///
    /// - By bit width: `scale = (max - min) / 2^bits`, rounded to the nearest
    ///   step of `Fixed`, and `offset = min`.
    /// - By resolution: `bits` is the base-2 logarithm of
    ///   `(max - min) / resolution`, rounded up; `scale = resolution` and
    ///   `offset = min`.
    /// - In full: width, scale and offset as given.
    /// - A flag: one bit.
    pub open spec fn shape(&self) -> Result<FieldVariant, CompileError> {
        match *self {
            FieldSpec::BitLength(f) => {
                if !(1 <= f.numb_of_bits <= 32) {
                    Err(CompileError::InvalidLength)
                } else {
                    quantized(
                        f.numb_of_bits,
                        round_div(f.max_value@ - f.min_value@, pow2(f.numb_of_bits as nat) as int),
                        f.min_value@,
                    )
                }
            },
            FieldSpec::Resolution(f) => {
                let range = f.max_value@ - f.min_value@;
                if f.resolution@ <= 0 || range <= f.resolution@ {
                    Err(CompileError::InvalidResolution)
                } else if bits_for(range, f.resolution@) > 32 {
                    Err(CompileError::InvalidLength)
                } else {
                    quantized(bits_for(range, f.resolution@) as u8, f.resolution@, f.min_value@)
                }
            },
            FieldSpec::Manual(f) => quantized(f.length, f.decode_scale@, f.decode_add@),
            FieldSpec::Bool(_) => Ok(FieldVariant::Bool(BoolField { offset: 0 })),
        }
    }

    /// A field that a description asks for is well formed and 1 to 32 bits
    /// wide; a fault is never one of those that speak of the whole list.
    pub proof fn lemma_shape(self)
        ensures
            match self.shape() {
                Ok(field) => field.wf() && field.spec_bit_offset() == 0 && 1
                    <= field.spec_bit_length() <= 32,
                Err(fault) => fault is InvalidResolution || fault is InvalidLength
                    || fault is ZeroScale || fault is Unrepresentable,
            },
    {
    }

    /// A field described by resolution has the resolution for its scale and
    /// just as many bits as the steps of the range need: with one bit less
    /// the steps would not cover the range.
    pub proof fn lemma_resolution_shape(self)
        requires
            self is Resolution,
            self.shape() is Ok,
        ensures
            ({
                let f = self->Resolution_0;
                let range = f.max_value@ - f.min_value@;
                &&& self.shape()->Ok_0 matches FieldVariant::F32(field)
                &&& field.decode_scale == f.resolution
                &&& field.decode_add == f.min_value
                &&& field.length == bits_for(range, f.resolution@)
                &&& f.resolution@ * pow2(field.length as nat) >= range
                &&& f.resolution@ * pow2((field.length - 1) as nat) < range
            }),
    {
        let f = self->Resolution_0;
        lemma_bits_for(f.max_value@ - f.min_value@, f.resolution@);
    }

    /// The name given to the field.
    pub fn name(&self) -> (name: &String)
        ensures
            name@ == self.label(),
    {
        match self {
            FieldSpec::BitLength(f) => &f.name,
            FieldSpec::Resolution(f) => &f.name,
            FieldSpec::Manual(f) => &f.name,
            FieldSpec::Bool(f) => &f.name,
        }
    }
}

/// The quantized field of `length` bits at bit 0 with the given scale and
/// offset, where that field is well formed.
fn make_quantized(length: u8, scale: i128, add: Fixed) -> (made: Result<FieldVariant, CompileError>)
    ensures
        made == quantized(length, scale as int, add@),
{
    if length < 1 || length > 32 {
        return Err(CompileError::InvalidLength);
    }
    if scale == 0 {
        return Err(CompileError::ZeroScale);
    }
    if scale < i64::MIN as i128 || scale > i64::MAX as i128 {
        return Err(CompileError::Unrepresentable);
    }
    let field = Field { offset: 0, length, decode_scale: Fixed { bits: scale as i64 }, decode_add: add };
    if field.is_valid() {
        Ok(FieldVariant::F32(field))
    } else {
        Err(CompileError::Unrepresentable)
    }
}

/// The number of bits needed to tell apart the steps of a range, counted no
/// further than 33.
fn count_bits(range: i128, step: i128) -> (bits: u8)
    requires
        0 < step < range <= 0x1_0000_0000_0000_0000,
    ensures
        bits_for(range as int, step as int) <= 32 ==> bits == bits_for(range as int, step as int),
        bits_for(range as int, step as int) > 32 ==> bits == 33,
        1 <= bits <= 33,
{
    let mut bits: u8 = 0;
    let mut reach: i128 = step;
    while reach < range && bits < 33
        invariant
            0 < step <= reach,
            range <= 0x1_0000_0000_0000_0000,
            bits <= 33,
            bits_for(range as int, step as int) == bits + bits_for(range as int, reach as int),
            bits == 0 ==> reach == step,
        decreases 33 - bits,
    {
        reach = reach * 2;
        bits = bits + 1;
    }
    bits
}

impl FieldSpec {
    /// Works out the field that the description asks for, placed at bit 0.
    pub fn compile_shape(&self) -> (made: Result<FieldVariant, CompileError>)
        ensures
            made == self.shape(),
    {
        proof {
            self.lemma_shape();
        }
        match self {
            FieldSpec::BitLength(f) => {
                if f.numb_of_bits < 1 || f.numb_of_bits > 32 {
                    return Err(CompileError::InvalidLength);
                }
                let max_storable: u64 = 1u64 << f.numb_of_bits;
                proof {
                    vstd::bits::lemma_u64_pow2_no_overflow(f.numb_of_bits as nat);
                    vstd::bits::lemma_u64_shl_is_mul(1u64, f.numb_of_bits as u64);
                    vstd::arithmetic::power2::lemma2_to64();
                    vstd::arithmetic::power2::lemma_pow2_strictly_increases(
                        f.numb_of_bits as nat,
                        33,
                    );
                }
                let decode_scale: i128 = div_round(
                    f.max_value.bits as i128 - f.min_value.bits as i128,
                    max_storable as i128,
                );
                make_quantized(f.numb_of_bits, decode_scale, f.min_value)
            },
            FieldSpec::Resolution(f) => {
                let given_range: i128 = f.max_value.bits as i128 - f.min_value.bits as i128;
                let step: i128 = f.resolution.bits as i128;
                if step <= 0 || given_range <= step {
                    return Err(CompileError::InvalidResolution);
                }
                let length: u8 = count_bits(given_range, step);
                if length > 32 {
                    return Err(CompileError::InvalidLength);
                }
                make_quantized(length, step, f.min_value)
            },
            FieldSpec::Manual(f) => make_quantized(f.length, f.decode_scale.bits as i128, f.decode_add),
            FieldSpec::Bool(_) => Ok(FieldVariant::Bool(BoolField { offset: 0 })),
        }
    }
}

/// The number of bits that the field of a description occupies; 0 where the
/// description is at fault.
pub open spec fn shape_bits(spec: FieldSpec) -> int {
    match spec.shape() {
        Ok(field) => field.spec_bit_length() as int,
        Err(_) => 0,
    }
}

/// The bit at which field `i` starts: the sum of the widths of the fields
/// before it.
pub open spec fn cursor(specs: Seq<FieldSpec>, i: int) -> int
    decreases i,
{
    if i <= 0 {
        0
    } else {
        cursor(specs, i - 1) + shape_bits(specs[i - 1])
    }
}

/// What is wrong with description `i`, if anything: the fault of its shape,
/// or that its field would start beyond bit 255.
pub open spec fn fault_at(specs: Seq<FieldSpec>, i: int) -> Option<CompileError> {
    match specs[i].shape() {
        Err(fault) => Some(fault),
        Ok(_) => if cursor(specs, i) > 255 {
            Some(CompileError::OffsetOverflow)
        } else {
            None
        },
    }
}

/// Nothing is wrong with the first `n` descriptions.
pub open spec fn faultless(specs: Seq<FieldSpec>, n: int) -> bool {
    forall|i: int| 0 <= i < n ==> fault_at(specs, i) is None
}

/// The field of description `i`, at its place in the record.
pub open spec fn placed(specs: Seq<FieldSpec>, i: int) -> FieldVariant {
    specs[i].shape()->Ok_0.at_offset(cursor(specs, i) as u8)
}

/// `fields` are the fields of the first `n` descriptions, in their order:
/// field `i` has the number `i`, the name of description `i`, and its shape at
/// the bit where field `i - 1` ends.
pub open spec fn compiled(specs: Seq<FieldSpec>, fields: Seq<MetaField>, n: int) -> bool {
    &&& fields.len() == n
    &&& forall|i: int|
        0 <= i < n ==> {
            &&& (#[trigger] fields[i]).id == i
            &&& fields[i].name@ == specs[i].label()
            &&& fields[i].field == placed(specs, i)
        }
}

/// The descriptions compile: there are 1 to 256 of them, and nothing is
/// wrong with any.
pub open spec fn compilable(specs: Seq<FieldSpec>) -> bool {
    &&& 1 <= specs.len() <= 256
    &&& faultless(specs, specs.len() as int)
}

/// The descriptions compile, and `fields` is what they compile to.
pub open spec fn compiles_to(specs: Seq<FieldSpec>, fields: Seq<MetaField>) -> bool {
    &&& 1 <= specs.len() <= 256
    &&& faultless(specs, specs.len() as int)
    &&& compiled(specs, fields, specs.len() as int)
}

/// The descriptions do not compile, and `fault` is the reason: there is no
/// description; or the first description at fault has this fault; or there are
/// more than 256 and nothing is wrong with the first 256, which `fault` then
/// holds compiled.
pub open spec fn fails_with(specs: Seq<FieldSpec>, fault: CompileError) -> bool {
    ||| fault is EmptyLayout && specs.len() == 0
    ||| exists|i: int|
        0 <= i < specs.len() && i < 256 && faultless(specs, i) && #[trigger] fault_at(specs, i)
            == Some(fault)
    ||| fault matches CompileError::LayoutOverflow(fields) && specs.len() > 256 && faultless(
        specs,
        256,
    ) && compiled(specs, fields@, 256)
}

/// Two lists of fields agree in every number, name and field.
pub open spec fn same_fields(a: Seq<MetaField>, b: Seq<MetaField>) -> bool {
    &&& a.len() == b.len()
    &&& forall|i: int|
        0 <= i < a.len() ==> {
            &&& (#[trigger] a[i]).id == b[i].id
            &&& a[i].name@ == b[i].name@
            &&& a[i].field == b[i].field
        }
}

/// Two faults are the same: the same reason, and where they hold fields, the
/// same fields.
pub open spec fn same_fault(a: CompileError, b: CompileError) -> bool {
    match (a, b) {
        (CompileError::LayoutOverflow(x), CompileError::LayoutOverflow(y)) => same_fields(x@, y@),
        _ => a == b,
    }
}

/// A list of descriptions compiles or fails, never both; what it compiles
/// to is one list of fields, and why it fails is one fault.
pub proof fn lemma_one_outcome(
    specs: Seq<FieldSpec>,
    fields: Seq<MetaField>,
    others: Seq<MetaField>,
    fault: CompileError,
    other: CompileError,
)
    ensures
        fails_with(specs, fault) ==> !compilable(specs),
        compiles_to(specs, fields) ==> compilable(specs),
        compiles_to(specs, fields) && compiles_to(specs, others) ==> same_fields(fields, others),
        fails_with(specs, fault) && fails_with(specs, other) ==> same_fault(fault, other),
{
    if fails_with(specs, fault) && fails_with(specs, other) {
        let first = first_fault_of(specs, fault);
        let second = first_fault_of(specs, other);
        if first is Some && second is Some {
            let i = first->0;
            let j = second->0;
            assert(fault_at(specs, i) == Some(fault));
            assert(fault_at(specs, j) == Some(other));
            if i < j {
                assert(fault_at(specs, i) is None);
            }
            if j < i {
                assert(fault_at(specs, j) is None);
            }
        } else if first is Some {
            let i = first->0;
            assert(fault_at(specs, i) == Some(fault));
            specs[i].lemma_shape();
            if specs.len() > 256 {
                assert(fault_at(specs, i) is None);
            }
        } else if second is Some {
            let j = second->0;
            assert(fault_at(specs, j) == Some(other));
            specs[j].lemma_shape();
            if specs.len() > 256 {
                assert(fault_at(specs, j) is None);
            }
        }
    }
    if fails_with(specs, fault) {
        let first = first_fault_of(specs, fault);
        if first is Some {
            assert(fault_at(specs, first->0) == Some(fault));
        }
    }
}

/// The place of the first description at fault, where `fault` is its fault.
spec fn first_fault_of(specs: Seq<FieldSpec>, fault: CompileError) -> Option<int> {
    if exists|i: int|
        0 <= i < specs.len() && i < 256 && faultless(specs, i) && #[trigger] fault_at(specs, i)
            == Some(fault) {
        Some(
            choose|i: int|
                0 <= i < specs.len() && i < 256 && faultless(specs, i) && #[trigger] fault_at(
                    specs,
                    i,
                ) == Some(fault),
        )
    } else {
        None
    }
}

impl MetaDataSpec {
    /// Compiles the field descriptions, in their order.
    pub fn compile_fields(&self) -> (made: Result<Vec<MetaField>, CompileError>)
        ensures
            made is Ok <==> compilable(self.fields@),
            match made {
                Ok(fields) => compiles_to(self.fields@, fields@),
                Err(fault) => fails_with(self.fields@, fault),
            },
    {
        let total: usize = self.fields.len();
        if total == 0 {
            return Err(CompileError::EmptyLayout);
        }
        let mut fields: Vec<MetaField> = Vec::new();
        let mut start_bit: u16 = 0;
        let mut id: usize = 0;
        while id < total && id < 256
            invariant
                total == self.fields@.len(),
                id <= total,
                id <= 256,
                faultless(self.fields@, id as int),
                compiled(self.fields@, fields@, id as int),
                start_bit == cursor(self.fields@, id as int),
                start_bit <= 255 + 32,
            decreases total - id,
        {
            let spec: &FieldSpec = &self.fields[id];
            proof {
                spec.lemma_shape();
            }
            let mut field: FieldVariant = match spec.compile_shape() {
                Ok(field) => field,
                Err(fault) => {
                    assert(fault_at(self.fields@, id as int) == Some(fault));
                    return Err(fault);
                },
            };
            if start_bit > 255 {
                assert(fault_at(self.fields@, id as int) == Some(CompileError::OffsetOverflow));
                return Err(CompileError::OffsetOverflow);
            }
            field.set_bit_offset(start_bit as u8);
            start_bit = start_bit + field.bit_length() as u16;
            fields.push(MetaField { id: id as u8, name: spec.name().clone(), field });
            id = id + 1;
        }
        if total > 256 {
            Err(CompileError::LayoutOverflow(fields))
        } else {
            Ok(fields)
        }
    }
}

/// A compiled record: its fields in the order of their numbers, which is
/// also the order of their bits.
#[derive(Clone, Debug, PartialEq)]
pub struct MetaData {
    pub name: String,
    pub description: String,
    /// Tells the records of one layout from those of another. It is no part
    /// of the packed bytes.
    pub key: u64,
    pub fields: Vec<MetaField>,
}

/// A declared generator of the `rand` crate; nothing is known of its state.
#[verifier::external_type_specification]
#[verifier::external_body]
pub struct ExStdRng(rand::rngs::StdRng);

/// The error of the `rand` crate; nothing is known of what it holds.
#[verifier::external_type_specification]
#[verifier::external_body]
pub struct ExRandError(rand::Error);

/// `StdRng::from_rng` on `EntropyRng::new()`: a generator seeded from the
/// system's entropy, or the error of the entropy source. Nothing is claimed
/// of either.
#[verifier::external_body]
fn seeded_rng() -> Result<rand::rngs::StdRng, rand::Error> {
    <rand::rngs::StdRng as rand::SeedableRng>::from_rng(rand::rngs::EntropyRng::new())
}

/// `Rng::gen` for `u64`: the next 64 bits of the generator. Nothing is
/// claimed of them.
#[verifier::external_body]
fn next_key(rng: &mut rand::rngs::StdRng) -> u64 {
    rand::Rng::gen::<u64>(rng)
}

/// The layout rules of a record: 1 to 256 fields, numbered 0, 1, 2, ... in
/// their order, each well formed, each starting no earlier than the one
/// before it ends.
pub open spec fn layout_wf(fields: Seq<MetaField>) -> bool {
    &&& 1 <= fields.len() <= 256
    &&& forall|i: int|
        0 <= i < fields.len() ==> (#[trigger] fields[i]).id == i && fields[i].field.wf()
    &&& forall|i: int, j: int|
        0 <= i < fields.len() && j == i + 1 && j < fields.len() ==> (#[trigger] fields[i]).field.spec_bit_offset()
            + fields[i].field.spec_bit_length() <= (#[trigger] fields[j]).field.spec_bit_offset()
}

/// The fields leave no gap: the first starts at bit 0, and each of the
/// others at the bit where the one before it ends.
pub open spec fn contiguous(fields: Seq<MetaField>) -> bool {
    &&& fields.len() > 0 ==> fields[0].field.spec_bit_offset() == 0
    &&& forall|i: int, j: int|
        0 <= i < fields.len() && j == i + 1 && j < fields.len() ==> (#[trigger] fields[i]).field.spec_bit_offset()
            + fields[i].field.spec_bit_length() == (#[trigger] fields[j]).field.spec_bit_offset()
}

/// The number of bits of a record: where its last field ends.
pub open spec fn total_bits(fields: Seq<MetaField>) -> int {
    fields.last().field.spec_bit_offset() + fields.last().field.spec_bit_length()
}

/// No field starts before bit 0.
pub proof fn lemma_cursor_nonnegative(specs: Seq<FieldSpec>, i: int)
    ensures
        cursor(specs, i) >= 0,
    decreases i,
{
    if i > 0 {
        lemma_cursor_nonnegative(specs, i - 1);
    }
}

/// The fields of the first `n` descriptions, where nothing is wrong with
/// those, obey the layout rules and leave no gap.
pub proof fn lemma_compiled_layout(specs: Seq<FieldSpec>, fields: Seq<MetaField>, n: int)
    requires
        1 <= n <= 256,
        n <= specs.len(),
        faultless(specs, n),
        compiled(specs, fields, n),
    ensures
        layout_wf(fields),
        contiguous(fields),
        total_bits(fields) == cursor(specs, n),
{
    assert forall|i: int| 0 <= i < n implies {
        &&& (#[trigger] fields[i]).field.wf()
        &&& fields[i].field.spec_bit_offset() == cursor(specs, i)
        &&& fields[i].field.spec_bit_length() == shape_bits(specs[i])
    } by {
        specs[i].lemma_shape();
        lemma_cursor_nonnegative(specs, i);
        assert(fault_at(specs, i) is None);
        assert(fields[i].field == placed(specs, i));
    }
    assert forall|i: int, j: int| 0 <= i < fields.len() && j == i + 1 && j < fields.len() implies (
    #[trigger] fields[i]).field.spec_bit_offset() + fields[i].field.spec_bit_length() == (
    #[trigger] fields[j]).field.spec_bit_offset() by {
        assert(cursor(specs, j) == cursor(specs, j - 1) + shape_bits(specs[j - 1]));
    }
    assert(cursor(specs, n) == cursor(specs, n - 1) + shape_bits(specs[n - 1]));
}

/// In a record that obeys the layout rules, a field ends at or before the
/// start of every later field, and at or before the end of the record.
pub proof fn lemma_layout_ordered(fields: Seq<MetaField>, i: int, j: int)
    requires
        layout_wf(fields),
        0 <= i < j < fields.len(),
    ensures
        fields[i].field.spec_bit_offset() + fields[i].field.spec_bit_length()
            <= fields[j].field.spec_bit_offset(),
        fields[i].field.apart(fields[j].field),
        fields[i].field.spec_bit_offset() + fields[i].field.spec_bit_length() <= total_bits(fields),
    decreases fields.len() - i,
{
    let next = i + 1;
    assert(fields[i].field.spec_bit_offset() + fields[i].field.spec_bit_length()
        <= fields[next].field.spec_bit_offset());
    assert(fields[next].field.wf());
    if next < j {
        lemma_layout_ordered(fields, next, j);
    }
    if next < fields.len() - 1 {
        lemma_layout_ordered(fields, next, fields.len() - 1);
    }
}

/// Every field of a record that obeys the layout rules lies inside a buffer
/// that holds the record's bits.
pub proof fn lemma_layout_fits(fields: Seq<MetaField>, line: Seq<u8>, i: int)
    requires
        layout_wf(fields),
        0 <= i < fields.len(),
        total_bits(fields) <= 8 * line.len(),
    ensures
        fields[i].field.fits(line),
{
    assert(fields[i].field.wf());
    if i < fields.len() - 1 {
        lemma_layout_ordered(fields, i, fields.len() - 1);
    }
}

/// Number of groups of `n` needed to hold `t` items: `t / n`, rounded up.
pub fn divide_up(t: u16, n: u16) -> (groups: u16)
    requires
        n > 0,
    ensures
        groups as int == (t as int + n as int - 1) / (n as int),
{
    let whole: u16 = t / n;
    let rest: u16 = t % n;
    proof {
        let ti = t as int;
        let ni = n as int;
        let grown: int = if rest == 0 {
            whole as int
        } else {
            whole as int + 1
        };
        assert((ti + ni - 1) / ni == grown && (rest != 0 ==> whole < ti)) by (nonlinear_arith)
            requires
                ni > 0,
                ti >= 0,
                whole as int == ti / ni,
                rest as int == ti % ni,
                grown == if rest == 0 {
                    whole as int
                } else {
                    whole as int + 1
                },
        ;
    }
    if rest == 0 {
        whole
    } else {
        whole + 1
    }
}

impl MetaData {
    /// The record obeys the layout rules.
    pub open spec fn wf(&self) -> bool {
        layout_wf(self.fields@)
    }

    /// Whether the record obeys the layout rules.
    pub fn is_valid(&self) -> (ok: bool)
        ensures
            ok == self.wf(),
    {
        let total: usize = self.fields.len();
        if total < 1 || total > 256 {
            return false;
        }
        let mut end: u16 = 0;
        let mut i: usize = 0;
        while i < total
            invariant
                total == self.fields@.len(),
                1 <= total <= 256,
                i <= total,
                forall|j: int|
                    0 <= j < i ==> (#[trigger] self.fields@[j]).id == j && self.fields@[j].field.wf(),
                forall|j: int, k: int|
                    0 <= j < i && k == j + 1 && k < i ==> (
                    #[trigger] self.fields@[j]).field.spec_bit_offset()
                        + self.fields@[j].field.spec_bit_length() <= (
                    #[trigger] self.fields@[k]).field.spec_bit_offset(),
                i == 0 ==> end == 0,
                i > 0 ==> end == self.fields@[i - 1].field.spec_bit_offset() + self.fields@[i
                    - 1].field.spec_bit_length(),
            decreases total - i,
        {
            let here: &MetaField = &self.fields[i];
            if here.id as usize != i || !here.field.is_valid() {
                assert(!(self.fields@[i as int].id == i && self.fields@[i as int].field.wf()));
                return false;
            }
            if (here.field.bit_offset() as u16) < end {
                assert(self.fields@[i - 1].field.spec_bit_offset() + self.fields@[i
                    - 1].field.spec_bit_length() > self.fields@[i as int].field.spec_bit_offset());
                return false;
            }
            end = here.field.bit_offset() as u16 + here.field.bit_length() as u16;
            i = i + 1;
        }
        true
    }

    /// The number of bytes that a buffer needs to hold the record: the bits up
    /// to the end of the last field, in whole bytes.
    pub fn fieldsum(&self) -> (bytes: u16)
        requires
            self.fields@.len() > 0,
        ensures
            bytes as int == (total_bits(self.fields@) + 7) / 8,
            8 * bytes >= total_bits(self.fields@),
    {
        let field: &MetaField = &self.fields[self.fields.len() - 1];
        let bits: u16 = field.field.bit_offset() as u16 + field.field.bit_length() as u16;
        divide_up(bits, 8)
    }

    /// The field with the number `id`, which in a record that obeys the layout
    /// rules is the field at position `id`.
    pub fn field(&self, id: FieldId) -> (found: Option<&MetaField>)
        requires
            self.wf(),
        ensures
            found is Some <==> id < self.fields@.len(),
            found is Some ==> *found->0 == self.fields@[id as int] && found->0.id == id,
    {
        if (id as usize) < self.fields.len() {
            Some(&self.fields[id as usize])
        } else {
            None
        }
    }
}

impl MetaDataSpec {
    /// The record `made` is this description compiled with the key `key`.
    pub open spec fn compiles_as(&self, made: MetaData, key: u64) -> bool {
        &&& made.name@ == self.name@
        &&& made.description@ == self.description@
        &&& made.key == key
        &&& compiles_to(self.fields@, made.fields@)
    }

    /// Compiles the description into a record with the given key.
    pub fn compile_with_key(&self, key: u64) -> (made: Result<MetaData, CompileError>)
        ensures
            made is Ok <==> compilable(self.fields@),
            match made {
                Ok(record) => self.compiles_as(record, key) && record.wf() && contiguous(
                    record.fields@,
                ),
                Err(fault) => fails_with(self.fields@, fault),
            },
    {
        match self.compile_fields() {
            Ok(fields) => {
                proof {
                    lemma_compiled_layout(self.fields@, fields@, self.fields@.len() as int);
                }
                Ok(
                    MetaData {
                        name: self.name.clone(),
                        description: self.description.clone(),
                        key,
                        fields,
                    },
                )
            },
            Err(fault) => Err(fault),
        }
    }

    /// Compiles the description into a record with a fresh random key.
    ///
    /// Whether the field descriptions compile does not depend on the key. Where
    /// they do, the only failure left is that of the entropy source.
    pub fn compile(&self) -> (made: Result<MetaData, CompileError>)
        ensures
            made is Ok ==> compilable(self.fields@),
            match made {
                Ok(record) => self.compiles_as(record, record.key) && record.wf() && contiguous(
                    record.fields@,
                ),
                Err(fault) => if compilable(self.fields@) {
                    fault is NoEntropy
                } else {
                    fails_with(self.fields@, fault)
                },
            },
    {
        match self.compile_fields() {
            Ok(fields) => {
                proof {
                    lemma_compiled_layout(self.fields@, fields@, self.fields@.len() as int);
                }
                match seeded_rng() {
                    Ok(mut rng) => {
                        let key: u64 = next_key(&mut rng);
                        Ok(
                            MetaData {
                                name: self.name.clone(),
                                description: self.description.clone(),
                                key,
                                fields,
                            },
                        )
                    },
                    Err(_) => Err(CompileError::NoEntropy),
                }
            },
            Err(fault) => Err(fault),
        }
    }
}

/// The four descriptions of the template compile.
proof fn lemma_template(specs: Seq<FieldSpec>)
    requires
        specs.len() == 4,
        specs[0] matches FieldSpec::BitLength(f) && f.min_value@ == -20 * ONE && f.max_value@ == 80
            * ONE && f.numb_of_bits == 10,
        specs[1] matches FieldSpec::Resolution(f) && f.min_value@ == 0 && f.max_value@ == 100 * ONE
            && f.resolution@ == 429496730,
        specs[2] matches FieldSpec::Manual(f) && f.length == 16 && f.decode_scale@ == ONE / 64
            && f.decode_add@ == 900 * ONE,
        specs[3] is Bool,
    ensures
        compilable(specs),
        round_div(ONE as int, 10) == 429496730,
{
    vstd::arithmetic::power2::lemma2_to64();
    assert(low_mask(10) == 1023 && low_mask(16) == 65535) by (bit_vector);
    lemma_round_div_is(0x1_0000_0000, 10, 429496730);
    lemma_round_div_is(429496729600, 1024, 419430400);
    reveal_with_fuel(bits_for, 12);
    assert(bits_for(429496729600int, 429496730) == 10);
    assert(quantized(10, 419430400, -85899345920int) is Ok);
    assert(quantized(10, 429496730, 0) is Ok);
    assert(quantized(16, 0x400_0000, 3865470566400int) is Ok);
    assert(specs[0].shape() is Ok && shape_bits(specs[0]) == 10);
    assert(specs[1].shape() is Ok && shape_bits(specs[1]) == 10);
    assert(specs[2].shape() is Ok && shape_bits(specs[2]) == 16);
    assert(specs[3].shape() is Ok && shape_bits(specs[3]) == 1);
    reveal_with_fuel(cursor, 5);
    assert(cursor(specs, 0) == 0);
    assert(cursor(specs, 1) == 10);
    assert(cursor(specs, 2) == 20);
    assert(cursor(specs, 3) == 36);
}

impl MetaDataSpec {
    /// A description to start from, with one field of each kind: a
    /// temperature by bit width, a humidity by resolution, a pressure given
    /// in full, and a flag. It compiles.
    pub fn template() -> (spec: MetaDataSpec)
        ensures
            spec.name@ == "template"@,
            spec.description@ == "one example of each kind of field"@,
            spec.fields@.len() == 4,
            spec.fields@[0] matches FieldSpec::BitLength(f) && f.name@ == "temperature"@
                && f.min_value@ == -20 * ONE && f.max_value@ == 80 * ONE && f.numb_of_bits == 10,
            spec.fields@[1] matches FieldSpec::Resolution(f) && f.name@ == "humidity"@
                && f.min_value@ == 0 && f.max_value@ == 100 * ONE && f.resolution@ == round_div(
                ONE as int,
                10,
            ),
            spec.fields@[2] matches FieldSpec::Manual(f) && f.name@ == "pressure"@ && f.length == 16
                && f.decode_scale@ == ONE / 64 && f.decode_add@ == 900 * ONE,
            spec.fields@[3] matches FieldSpec::Bool(f) && f.name@ == "door open"@,
            compilable(spec.fields@),
    {
        let mut fields: Vec<FieldSpec> = Vec::new();
        fields.push(
            FieldSpec::BitLength(
                FieldLength {
                    name: "temperature".to_owned(),
                    min_value: Fixed::from_int(-20),
                    max_value: Fixed::from_int(80),
                    numb_of_bits: 10,
                },
            ),
        );
        fields.push(
            FieldSpec::Resolution(
                FieldResolution {
                    name: "humidity".to_owned(),
                    min_value: Fixed::from_int(0),
                    max_value: Fixed::from_int(100),
                    resolution: Fixed { bits: 429496730 },
                },
            ),
        );
        fields.push(
            FieldSpec::Manual(
                FieldManual {
                    name: "pressure".to_owned(),
                    length: 16,
                    decode_scale: Fixed { bits: 0x400_0000 },
                    decode_add: Fixed::from_int(900),
                },
            ),
        );
        fields.push(FieldSpec::Bool(FieldBool { name: "door open".to_owned() }));
        proof {
            lemma_template(fields@);
        }
        MetaDataSpec {
            name: "template".to_owned(),
            description: "one example of each kind of field".to_owned(),
            fields,
        }
    }
}

} // verus!
