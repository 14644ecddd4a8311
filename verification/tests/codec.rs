use bitspec::compression::{decode, encode, max_raw};
use bitspec::{BoolField, EncodeError, Field, FieldVariant, Fixed, MetaField, TypedValue};

fn to_fixed(x: f32) -> Fixed {
    Fixed::from_bits((x as f64 * 4294967296.0).round() as i64)
}

fn to_f32(x: Fixed) -> f32 {
    (x.bits as f64 / 4294967296.0) as f32
}

#[test]
fn test() {
    let fields = &[
        Field {
            // Sine
            decode_add: to_fixed(-5000.0000000000),
            decode_scale: to_fixed(1.0000000000),
            length: 14,
            offset: 0,
        },
        Field {
            // Triangle
            decode_add: to_fixed(-10.0000000000),
            decode_scale: to_fixed(0.0500000007),
            length: 10,
            offset: 14,
        },
    ];

    for i in 0..100 {
        let sine = -5000.0 + i as f32 * (5000.0 * 2.0) / 100.0;
        let triangle = 20.0 - i as f32 * (20.0 + 10.0) / 100.0;

        let mut line = [0u8, 0, 0];
        fields[0].encode(to_fixed(sine), &mut line);
        fields[1].encode(to_fixed(triangle), &mut line);

        let decoded_sine: f32 = to_f32(fields[0].decode(&line));
        let decoded_triangle: f32 = to_f32(fields[1].decode(&line));

        assert!(sine - decoded_sine <= 1. + 0.001);
        assert!(triangle - decoded_triangle <= 0.05 + 0.001);
    }
}

#[test]
fn decode_reads_across_byte_boundaries() {
    // bits, least significant first: byte 0 = 0xA5, byte 1 = 0x3C, byte 2 = 0xF0
    let line = [0xA5u8, 0x3C, 0xF0];
    assert_eq!(decode(&line, 0, 8), 0xA5);
    assert_eq!(decode(&line, 8, 8), 0x3C);
    assert_eq!(decode(&line, 0, 16), 0x3CA5);
    assert_eq!(decode(&line, 4, 8), 0xCA);
    assert_eq!(decode(&line, 4, 16), 0x03CA);
    assert_eq!(decode(&line, 0, 24), 0xF03CA5);
    assert_eq!(decode(&line, 7, 3), 0b001);
    assert_eq!(decode(&line, 23, 1), 1);
    assert_eq!(decode(&line, 5, 0), 0);
}

#[test]
fn decode_ignores_bits_outside_the_range() {
    let quiet = [0x00u8, 0x18, 0x00];
    let noisy = [0xFFu8, 0xDB, 0xFF];
    // bits 11 and 12 are set in both; everything around them differs
    assert_eq!(decode(&quiet, 11, 2), 0b11);
    assert_eq!(decode(&noisy, 11, 2), 0b11);
    assert_eq!(decode(&noisy, 10, 1), 0);
    assert_eq!(decode(&noisy, 13, 1), 0);
}

#[test]
fn encode_writes_only_the_target_bits() {
    let mut line = [0xFFu8; 4];
    encode(0, &mut line, 6, 12);
    assert_eq!(line, [0x3F, 0xFF & 0x00, 0xFC, 0xFF]);
    let mut line = [0u8; 4];
    encode(0xFFF, &mut line, 6, 12);
    assert_eq!(line, [0xC0, 0xFF, 0x03, 0x00]);
    let mut line = [0u8; 5];
    encode(0xDEADBEEF, &mut line, 3, 32);
    assert_eq!(decode(&line, 3, 32), 0xDEADBEEF);
    assert_eq!(decode(&line, 0, 3), 0);
    assert_eq!(decode(&line, 35, 5), 0);
}

#[test]
fn encode_keeps_only_the_low_bits_of_the_value() {
    let mut line = [0u8; 2];
    encode(0x1F5, &mut line, 2, 4);
    assert_eq!(decode(&line, 2, 4), 0x5);
    assert_eq!(line, [0x5 << 2, 0]);
}

#[test]
fn encode_of_no_bits_changes_nothing() {
    let mut line = [0x12u8, 0x34];
    encode(0xFFFF_FFFF, &mut line, 7, 0);
    assert_eq!(line, [0x12, 0x34]);
}

#[test]
fn decode_then_encode_restores_the_buffer() {
    let start = [0x5Au8, 0xC3, 0x0F, 0xF0, 0x99, 0x66, 0x81];
    for offset in 0u8..=24 {
        for length in 0u8..=32 {
            let mut line = start;
            let value = decode(&line, offset, length);
            assert!(value <= max_raw(length));
            encode(value, &mut line, offset, length);
            assert_eq!(line, start);
            assert_eq!(decode(&line, offset, length), value);
        }
    }
}

#[test]
fn encode_then_decode_returns_the_value() {
    let values = [0u32, 1, 2, 0x55, 0xAAAA, 0x1234_5678, 0xFFFF_FFFF, 0x8000_0001];
    for offset in 0u8..=17 {
        for length in 0u8..=32 {
            for value in values {
                let mut line = [0x3Cu8; 7];
                encode(value, &mut line, offset, length);
                assert_eq!(decode(&line, offset, length), value & max_raw(length));
                // the bits before and after the range are those of 0x3C bytes
                let untouched = [0x3Cu8; 7];
                if offset > 0 {
                    assert_eq!(decode(&line, 0, offset), decode(&untouched, 0, offset));
                }
                let end = offset + length;
                assert_eq!(decode(&line, end, 56 - end.max(24)), decode(&untouched, end, 56 - end.max(24)));
            }
        }
    }
}

#[test]
fn max_raw_is_two_to_the_length_minus_one() {
    assert_eq!(max_raw(0), 0);
    assert_eq!(max_raw(1), 1);
    assert_eq!(max_raw(10), 1023);
    assert_eq!(max_raw(14), 16383);
    assert_eq!(max_raw(31), 0x7FFF_FFFF);
    assert_eq!(max_raw(32), 0xFFFF_FFFF);
}

#[test]
fn neighbouring_fields_in_one_byte_do_not_disturb_each_other() {
    let first = Field { offset: 0, length: 14, decode_scale: Fixed::from_int(1), decode_add: Fixed::from_int(0) };
    let second = Field { offset: 14, length: 10, decode_scale: Fixed::from_int(1), decode_add: Fixed::from_int(0) };
    for a in [0i32, 1, 8191, 16383, 0x2AAA, 0x1555] {
        for b in [0i32, 1, 512, 1023, 0x2AA, 0x155] {
            let mut line = [0u8; 3];
            first.encode(Fixed::from_int(a), &mut line);
            let before = line;
            second.encode(Fixed::from_int(b), &mut line);
            assert_eq!(first.decode(&line), Fixed::from_int(a));
            assert_eq!(second.decode(&line), Fixed::from_int(b));
            assert_eq!(decode(&line, 0, 14), decode(&before, 0, 14));
            // and the other way round
            first.encode(Fixed::from_int(16383 - a), &mut line);
            assert_eq!(second.decode(&line), Fixed::from_int(b));
        }
    }
}

#[test]
fn flag_round_trip_leaves_the_other_seven_bits() {
    for offset in 0u8..16 {
        for fill in [0x00u8, 0xFF, 0xA5, 0x5A] {
            let flag = BoolField { offset };
            let mut line = [fill; 2];
            flag.encode(true, &mut line);
            assert!(flag.decode(&line));
            let at = (offset / 8) as usize;
            assert_eq!(line[at], fill | (1 << (offset % 8)));
            assert_eq!(line[1 - at], fill);
            flag.encode(false, &mut line);
            assert!(!flag.decode(&line));
            assert_eq!(line[at], fill & !(1 << (offset % 8)));
            assert_eq!(line[1 - at], fill);
        }
    }
}

#[test]
fn quantize_rounds_to_the_nearest_step_and_clamps() {
    let field = Field { offset: 0, length: 4, decode_scale: Fixed::from_int(10), decode_add: Fixed::from_int(100) };
    assert!(field.is_valid());
    assert_eq!(field.quantize(Fixed::from_int(100)), 0);
    assert_eq!(field.quantize(Fixed::from_int(104)), 0);
    assert_eq!(field.quantize(Fixed::from_int(105)), 1);
    assert_eq!(field.quantize(Fixed::from_int(114)), 1);
    assert_eq!(field.quantize(Fixed::from_int(115)), 2);
    assert_eq!(field.quantize(Fixed::from_int(250)), 15);
    assert_eq!(field.quantize(Fixed::from_int(251)), 15);
    assert_eq!(field.quantize(Fixed::from_int(100_000)), 15);
    assert_eq!(field.quantize(Fixed::from_int(99)), 0);
    assert_eq!(field.quantize(Fixed::from_int(-100_000)), 0);
    assert_eq!(field.quantize(Fixed::from_bits(i64::MIN)), 0);
    assert_eq!(field.quantize(Fixed::from_bits(i64::MAX)), 15);
    assert_eq!(field.dequantize(0), Fixed::from_int(100));
    assert_eq!(field.dequantize(15), Fixed::from_int(250));
}

#[test]
fn quantize_with_a_negative_scale() {
    let field = Field { offset: 0, length: 3, decode_scale: Fixed::from_int(-2), decode_add: Fixed::from_int(10) };
    assert!(field.is_valid());
    assert_eq!(field.quantize(Fixed::from_int(10)), 0);
    assert_eq!(field.quantize(Fixed::from_int(8)), 1);
    assert_eq!(field.quantize(Fixed::from_int(7)), 2);
    assert_eq!(field.quantize(Fixed::from_int(-4)), 7);
    assert_eq!(field.quantize(Fixed::from_int(-40)), 7);
    assert_eq!(field.quantize(Fixed::from_int(40)), 0);
    assert_eq!(field.dequantize(7), Fixed::from_int(-4));
}

#[test]
fn quantized_value_comes_back_within_one_step() {
    let scale = Fixed::from_ratio(1, 10).unwrap();
    let field = Field { offset: 3, length: 10, decode_scale: scale, decode_add: Fixed::from_int(-20) };
    assert!(field.is_valid());
    let mut line = [0u8; 2];
    for k in 0..=1023i64 {
        // a number a third of a step above the k-th step
        let value = Fixed::from_bits(Fixed::from_int(-20).bits + k * scale.bits + scale.bits / 3);
        field.encode(value, &mut line);
        let back = field.decode(&line);
        assert!((value.bits - back.bits).abs() <= scale.bits);
        assert_eq!(back.bits, Fixed::from_int(-20).bits + k * scale.bits);
        assert_eq!(field.quantize(back), k as u32);
    }
}

#[test]
fn field_validity() {
    let one = Fixed::from_int(1);
    let zero = Fixed::from_int(0);
    assert!(Field { offset: 0, length: 1, decode_scale: one, decode_add: zero }.is_valid());
    assert!(!Field { offset: 0, length: 32, decode_scale: one, decode_add: zero }.is_valid());
    assert!(Field { offset: 0, length: 32, decode_scale: Fixed::from_bits(1), decode_add: zero }.is_valid());
    assert!(!Field { offset: 0, length: 0, decode_scale: one, decode_add: zero }.is_valid());
    assert!(!Field { offset: 0, length: 33, decode_scale: one, decode_add: zero }.is_valid());
    assert!(!Field { offset: 0, length: 8, decode_scale: zero, decode_add: zero }.is_valid());
    assert!(!Field { offset: 0, length: 8, decode_scale: one, decode_add: Fixed::from_bits(i64::MAX) }.is_valid());
    assert!(Field { offset: 0, length: 8, decode_scale: Fixed::from_int(-1), decode_add: Fixed::from_bits(i64::MAX) }.is_valid());
}

#[test]
fn variant_dispatch_and_type_mismatch() {
    let number = Field { offset: 1, length: 7, decode_scale: Fixed::from_int(2), decode_add: Fixed::from_int(0) };
    let flag = FieldVariant::Bool(BoolField { offset: 0 });
    let narrow = FieldVariant::F32(number);
    let wide = FieldVariant::F64(number);
    let mut line = [0u8; 1];

    assert_eq!(flag.encode(TypedValue::Bool(true), &mut line), Ok(()));
    assert_eq!(narrow.encode(TypedValue::F32(Fixed::from_int(100)), &mut line), Ok(()));
    assert_eq!(line, [1 | (50 << 1)]);
    assert_eq!(flag.decode(&line), TypedValue::Bool(true));
    assert_eq!(narrow.decode(&line), TypedValue::F32(Fixed::from_int(100)));
    assert_eq!(wide.decode(&line), TypedValue::F64(Fixed::from_int(100)));

    let before = line;
    assert_eq!(wide.encode(TypedValue::Bool(false), &mut line), Err(EncodeError::TypeMismatch));
    assert_eq!(wide.encode(TypedValue::F32(Fixed::from_int(4)), &mut line), Err(EncodeError::TypeMismatch));
    assert_eq!(narrow.encode(TypedValue::F64(Fixed::from_int(4)), &mut line), Err(EncodeError::TypeMismatch));
    assert_eq!(narrow.encode(TypedValue::Bool(true), &mut line), Err(EncodeError::TypeMismatch));
    assert_eq!(flag.encode(TypedValue::F32(Fixed::from_int(4)), &mut line), Err(EncodeError::TypeMismatch));
    assert_eq!(flag.encode(TypedValue::F64(Fixed::from_int(4)), &mut line), Err(EncodeError::TypeMismatch));
    assert_eq!(line, before);

    assert_eq!(wide.encode(TypedValue::F64(Fixed::from_int(6)), &mut line), Ok(()));
    assert_eq!(line, [1 | (3 << 1)]);
}

#[test]
fn variant_length_and_offset() {
    let mut flag = FieldVariant::Bool(BoolField { offset: 9 });
    let mut number = FieldVariant::F64(Field {
        offset: 3,
        length: 12,
        decode_scale: Fixed::from_int(1),
        decode_add: Fixed::from_int(0),
    });
    assert_eq!(flag.bit_length(), 1);
    assert_eq!(flag.bit_offset(), 9);
    assert_eq!(number.bit_length(), 12);
    assert_eq!(number.bit_offset(), 3);
    flag.set_bit_offset(200);
    number.set_bit_offset(255);
    assert_eq!(flag, FieldVariant::Bool(BoolField { offset: 200 }));
    assert_eq!(
        number,
        FieldVariant::F64(Field {
            offset: 255,
            length: 12,
            decode_scale: Fixed::from_int(1),
            decode_add: Fixed::from_int(0),
        })
    );
}

#[test]
fn named_field_forwards_to_its_field() {
    let meta = MetaField {
        id: 3,
        name: String::from("level"),
        field: FieldVariant::F32(Field {
            offset: 4,
            length: 4,
            decode_scale: Fixed::from_int(1),
            decode_add: Fixed::from_int(-8),
        }),
    };
    let mut line = [0xFFu8; 1];
    assert_eq!(meta.encode(TypedValue::F32(Fixed::from_int(-3)), &mut line), Ok(()));
    assert_eq!(line, [0x5F]);
    assert_eq!(meta.decode(&line), TypedValue::F32(Fixed::from_int(-3)));
    assert_eq!(meta.encode(TypedValue::Bool(true), &mut line), Err(EncodeError::TypeMismatch));
    assert_eq!(line, [0x5F]);
    let bare: FieldVariant = meta.clone().into();
    assert_eq!(bare, meta.field);
}
