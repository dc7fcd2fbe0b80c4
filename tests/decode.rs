use electrolyzer_modbus::decode::{DecodeError, RegisterValue};
use electrolyzer_modbus::register::DataType;

#[test]
fn uint32_reads_words_big_endian() {
    let v = RegisterValue::decode(&[0x0102, 0x0304], DataType::UInt32);
    assert_eq!(v, Ok(RegisterValue::U32(0x0102_0304)));
}

#[test]
fn float32_round_trips() {
    let bits = 3.14f32.to_bits();
    let words = [(bits >> 16) as u16, (bits & 0xFFFF) as u16];
    match RegisterValue::decode(&words, DataType::Float32) {
        Ok(RegisterValue::Float32(b)) => assert_eq!(f32::from_bits(b), 3.14f32),
        other => panic!("unexpected {other:?}"),
    }
}

#[test]
fn boolean_is_true_only_when_every_bit_is_set() {
    assert_eq!(RegisterValue::decode(&[0x0000], DataType::Boolean), Ok(RegisterValue::Boolean(false)));
    assert_eq!(RegisterValue::decode(&[0xFFFF], DataType::Boolean), Ok(RegisterValue::Boolean(true)));
    assert_eq!(RegisterValue::decode(&[0x0001], DataType::Boolean), Ok(RegisterValue::Boolean(false)));
}

#[test]
fn sized_blob_round_trips() {
    let mut blob = [0u8; 66];
    for (i, b) in blob.iter_mut().enumerate() {
        *b = (i as u8).wrapping_mul(7).wrapping_add(3);
    }
    let words: Vec<u16> =
        (0..33).map(|k| (blob[65 - 2 * k] as u16) << 8 | blob[64 - 2 * k] as u16).collect();
    assert_eq!(RegisterValue::decode(&words, DataType::Sized), Ok(RegisterValue::Sized(blob)));
}

#[test]
fn one_word_types_take_the_word_as_is() {
    assert_eq!(RegisterValue::decode(&[0xBEEF], DataType::UInt16), Ok(RegisterValue::U16(0xBEEF)));
    assert_eq!(RegisterValue::decode(&[7], DataType::Enum16), Ok(RegisterValue::Enum16(7)));
}

#[test]
fn wide_unsigned_types() {
    assert_eq!(
        RegisterValue::decode(&[0x0001, 0x0002, 0x0003, 0x0004], DataType::UInt64),
        Ok(RegisterValue::U64(0x0001_0002_0003_0004))
    );
    let words = [0x1111, 0x2222, 0x3333, 0x4444, 0x5555, 0x6666, 0x7777, 0x8888];
    assert_eq!(
        RegisterValue::decode(&words, DataType::UInt128),
        Ok(RegisterValue::U128(0x1111_2222_3333_4444_5555_6666_7777_8888))
    );
}

#[test]
fn int32_is_twos_complement() {
    assert_eq!(RegisterValue::decode(&[0xFFFF, 0xFFFE], DataType::Int32), Ok(RegisterValue::S32(-2)));
    assert_eq!(RegisterValue::decode(&[0x0000, 0x0005], DataType::Int32), Ok(RegisterValue::S32(5)));
}

#[test]
fn wrong_word_count_is_an_error() {
    assert_eq!(
        RegisterValue::decode(&[1], DataType::UInt32),
        Err(DecodeError { expected: 2, found: 1 })
    );
    assert_eq!(
        RegisterValue::decode(&[], DataType::UInt16),
        Err(DecodeError { expected: 1, found: 0 })
    );
}
