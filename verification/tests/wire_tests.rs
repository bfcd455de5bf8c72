use axon::wire::{
    check_data_len, decode_i32s, decode_i64s, decode_input, decode_words32, element_count,
    encode_i32s, encode_i64s, encode_payload, encode_texts, encode_words32, shape_dims, wire_type,
    InputError, RawTensor, WireType,
};

#[test]
fn datatype_names() {
    assert_eq!(wire_type("FP32"), Some(WireType::Fp32));
    assert_eq!(wire_type("FLOAT32"), Some(WireType::Fp32));
    assert_eq!(wire_type("INT32"), Some(WireType::Int32));
    assert_eq!(wire_type("INT64"), Some(WireType::Int64));
    assert_eq!(wire_type("BYTES"), Some(WireType::Bytes));
    assert_eq!(wire_type("STRING"), Some(WireType::Bytes));
    assert_eq!(wire_type("fp32"), None);
    assert_eq!(WireType::Fp32.label(), "FP32");
}

#[test]
fn shape_product_saturates_and_empty_is_zero() {
    assert_eq!(element_count(&[]), 0);
    assert_eq!(element_count(&[5]), 5);
    assert_eq!(element_count(&[2, 3, 4]), 24);
    assert_eq!(element_count(&[usize::MAX, 2]), usize::MAX);
    assert_eq!(element_count(&[3, 0]), 0);
    assert_eq!(shape_dims(&[1, 30]), vec![1usize, 30]);
    assert_eq!(shape_dims(&[-1]), vec![usize::MAX]);
}

#[test]
fn little_endian_integers() {
    assert_eq!(decode_i32s(&[1, 0, 0, 0, 0xff, 0xff, 0xff, 0xff, 0, 0, 0, 0x80]), vec![1, -1, i32::MIN]);
    let mut raw = Vec::new();
    raw.extend_from_slice(&(-2i64).to_le_bytes());
    raw.extend_from_slice(&i64::MAX.to_le_bytes());
    assert_eq!(decode_i64s(&raw), vec![-2, i64::MAX]);
}

#[test]
fn decodes_int32_input() {
    let raw = [7u8, 0, 0, 0, 0xfe, 0xff, 0xff, 0xff];
    match decode_input("INT32", &[1, 2], &raw) {
        Ok((dims, RawTensor::Int32(v))) => {
            assert_eq!(dims, vec![1, 2]);
            assert_eq!(v, vec![7, -2]);
        }
        _ => panic!("expected an INT32 tensor"),
    }
}

#[test]
fn decodes_fp32_input_as_bit_patterns() {
    let mut raw = Vec::new();
    raw.extend_from_slice(&1.5f32.to_le_bytes());
    raw.extend_from_slice(&(-0.25f32).to_le_bytes());
    match decode_input("FLOAT32", &[2], &raw) {
        Ok((_, RawTensor::Fp32Bits(v))) => {
            assert_eq!(v.len(), 2);
            assert_eq!(f32::from_bits(v[0]), 1.5);
            assert_eq!(f32::from_bits(v[1]), -0.25);
        }
        _ => panic!("expected an FP32 tensor"),
    }
}

#[test]
fn decodes_text_input() {
    match decode_input("BYTES", &[1], "grüß".as_bytes()) {
        Ok((_, RawTensor::Text(s))) => assert_eq!(s, "grüß"),
        _ => panic!("expected text"),
    }
    assert_eq!(decode_input("STRING", &[1], &[0xff, 0xfe]).err(), Some(InputError::InvalidUtf8));
}

#[test]
fn refuses_bad_inputs() {
    assert_eq!(decode_input("FP16", &[1], &[0, 0]).err(), Some(InputError::Unsupported));
    assert_eq!(decode_input("INT64", &[1], &[0; 12]).err(), Some(InputError::Misaligned { width: 8 }));
    assert_eq!(decode_input("FP32", &[1], &[0; 6]).err(), Some(InputError::Misaligned { width: 4 }));
    assert_eq!(
        decode_input("INT32", &[3], &[0; 8]).err(),
        Some(InputError::CountMismatch { expected: 3, actual: 2 })
    );
    assert_eq!(
        decode_input("INT64", &[], &[0; 8]).err(),
        Some(InputError::CountMismatch { expected: 0, actual: 1 })
    );
}

#[test]
fn json_payload_length_check() {
    assert_eq!(check_data_len(6, 6), Ok(()));
    assert_eq!(check_data_len(4, 0), Ok(()));
    assert_eq!(check_data_len(5, 6), Err(InputError::CountMismatch { expected: 6, actual: 5 }));
}

#[test]
fn encoders_match_to_le_bytes() {
    let ints = [0i32, 1, -1, i32::MIN, i32::MAX, 123456789];
    let expected: Vec<u8> = ints.iter().flat_map(|x| x.to_le_bytes()).collect();
    assert_eq!(encode_i32s(&ints), expected);
    let longs = [0i64, -2, i64::MIN, i64::MAX, 1 << 40];
    let expected: Vec<u8> = longs.iter().flat_map(|x| x.to_le_bytes()).collect();
    assert_eq!(encode_i64s(&longs), expected);
    let words = [0u32, 0xdeadbeef, u32::MAX];
    let expected: Vec<u8> = words.iter().flat_map(|x| x.to_le_bytes()).collect();
    assert_eq!(encode_words32(&words), expected);
    assert_eq!(encode_texts(&["ab".to_string(), "".to_string(), "ç".to_string()]), "abç".as_bytes());
}

#[test]
fn encoded_payloads_decode_to_themselves() {
    let ints = vec![5i32, -7, i32::MIN];
    assert_eq!(decode_i32s(&encode_i32s(&ints)), ints);
    let longs = vec![i64::MIN, 0, 99];
    assert_eq!(decode_i64s(&encode_i64s(&longs)), longs);
    let words = vec![1u32, 2, 0xffff_0000];
    assert_eq!(decode_words32(&encode_words32(&words)), words);

    let raw = encode_payload(&RawTensor::Int64(longs.clone()));
    match decode_input("INT64", &[1, 3], &raw) {
        Ok((_, RawTensor::Int64(v))) => assert_eq!(v, longs),
        _ => panic!("expected INT64"),
    }
    let raw = encode_payload(&RawTensor::Text("héllo".to_string()));
    match decode_input("BYTES", &[1], &raw) {
        Ok((_, RawTensor::Text(s))) => assert_eq!(s, "héllo"),
        _ => panic!("expected text"),
    }
}
