use netcdf3::{
    is_valid_name, is_valid_name_bytes, CoercionError, DataType, DataVector, ReadError,
};

#[test]
fn test_valid_names() {
    assert!(is_valid_name("a"));
    assert!(is_valid_name("_x"));
    assert!(is_valid_name("Temp_2m.max+min-avg@site"));
    assert!(is_valid_name("caf\u{e9}"));
    assert!(is_valid_name("\u{e9}t\u{e9}"));
    assert!(is_valid_name(&"a".repeat(256)));
    assert!(!is_valid_name(""));
    assert!(!is_valid_name(&"a".repeat(257)));
    assert!(!is_valid_name("1a"));
    assert!(!is_valid_name(".a"));
    assert!(!is_valid_name("+a"));
    assert!(!is_valid_name("-a"));
    assert!(!is_valid_name("@a"));
    assert!(!is_valid_name("a b"));
    assert!(!is_valid_name("a/b"));
    assert!(!is_valid_name("a\0"));
    // the length is counted in bytes
    assert!(is_valid_name(&"\u{e9}".repeat(128)));
    assert!(!is_valid_name(&"\u{e9}".repeat(129)));
}

#[test]
fn test_valid_name_bytes() {
    assert!(is_valid_name_bytes(b"a9"));
    assert!(is_valid_name_bytes(&[0x80, 0xff]));
    assert!(!is_valid_name_bytes(b"9a"));
    assert!(!is_valid_name_bytes(b""));
    assert!(!is_valid_name_bytes(b"a\x7f"));
}

#[test]
fn test_data_type_tables() {
    let all = [
        (DataType::I8, 1usize, 1u32),
        (DataType::U8, 1, 2),
        (DataType::I16, 2, 3),
        (DataType::I32, 4, 4),
        (DataType::F32, 4, 5),
        (DataType::F64, 8, 6),
    ];
    for (data_type, size, code) in all {
        assert_eq!(size, data_type.size_of());
        assert_eq!(code, data_type.code());
        assert_eq!(Some(data_type), DataType::from_code(code));
    }
    assert_eq!(None, DataType::from_code(0));
    assert_eq!(None, DataType::from_code(7));
    assert_eq!(Ok(DataType::I16), DataType::try_from_code(3));
    assert_eq!(Err(ReadError::InvalidTypeTag(9)), DataType::try_from_code(9));
}

#[test]
fn test_data_vector_encode_decode() {
    let values = DataVector::I16(vec![1, -2, 258]);
    let mut out = vec![9u8];
    values.encode(&mut out);
    assert_eq!(vec![9u8, 0, 1, 0xff, 0xfe, 1, 2], out);
    assert_eq!(Ok(values), DataVector::decode(DataType::I16, &out, 1, 3));
    assert_eq!(Ok(DataVector::I16(vec![-2])), DataVector::decode(DataType::I16, &out, 3, 1));
    assert_eq!(Err(ReadError::UnexpectedEndOfInput), DataVector::decode(DataType::I16, &out, 3, 3));
    assert_eq!(Err(ReadError::UnexpectedEndOfInput), DataVector::decode(DataType::I16, &out, 8, 0));
    assert_eq!(Ok(DataVector::I16(vec![])), DataVector::decode(DataType::I16, &out, 7, 0));
    assert_eq!(
        Err(ReadError::UnexpectedEndOfInput),
        DataVector::decode(DataType::F64, &out, 0, usize::MAX)
    );

    let mut out = vec![];
    DataVector::I32(vec![-1, 0x0102_0304]).encode(&mut out);
    assert_eq!(vec![0xffu8, 0xff, 0xff, 0xff, 1, 2, 3, 4], out);
    assert_eq!(
        Ok(DataVector::I32(vec![-1, 0x0102_0304])),
        DataVector::decode(DataType::I32, &out, 0, 2)
    );
    assert_eq!(
        Ok(DataVector::F32(vec![0xffff_ffff, 0x0102_0304])),
        DataVector::decode(DataType::F32, &out, 0, 2)
    );
    assert_eq!(
        Ok(DataVector::F64(vec![0xffff_ffff_0102_0304])),
        DataVector::decode(DataType::F64, &out, 0, 1)
    );
    assert_eq!(Ok(DataVector::I8(vec![-1, 1])), DataVector::decode(DataType::I8, &out, 3, 2));
    assert_eq!(Ok(DataVector::U8(vec![255, 1])), DataVector::decode(DataType::U8, &out, 3, 2));

    let mut out = vec![];
    DataVector::F64(vec![1.0f64.to_bits()]).encode(&mut out);
    assert_eq!(1.0f64.to_be_bytes().to_vec(), out);
    let mut out = vec![];
    DataVector::F32(vec![(-2.5f32).to_bits()]).encode(&mut out);
    assert_eq!((-2.5f32).to_be_bytes().to_vec(), out);
    let mut out = vec![];
    DataVector::I8(vec![-128, 5]).encode(&mut out);
    assert_eq!(vec![0x80u8, 5], out);
}

#[test]
fn test_data_vector_parts() {
    let values = DataVector::I32(vec![5, 6, 7, 8]);
    assert_eq!(DataType::I32, values.data_type());
    assert_eq!(4, values.len());
    assert_eq!(values, values.clone());
    let empty = DataVector::new(DataType::I32);
    assert_eq!(0, empty.len());
    assert_eq!(DataVector::I32(vec![]), empty);
    assert_eq!(DataVector::F64(vec![]), DataVector::new(DataType::F64));
    let floats = DataVector::F64(vec![0.5f64.to_bits(), u64::MAX]);
    assert_eq!(floats, floats.clone());
}

#[test]
fn test_coercion() {
    let bytes = DataVector::I8(vec![-128, 127]);
    assert_eq!(Ok(DataVector::I16(vec![-128, 127])), bytes.coerce(DataType::I16));
    assert_eq!(Ok(DataVector::I32(vec![-128, 127])), bytes.coerce(DataType::I32));
    assert_eq!(Ok(DataVector::I8(vec![-128, 127])), bytes.coerce(DataType::I8));
    let ints = DataVector::I32(vec![32767, -32768]);
    assert_eq!(Ok(DataVector::I16(vec![32767, -32768])), ints.coerce(DataType::I16));
    assert_eq!(Err(CoercionError::ValueOutOfRange), ints.coerce(DataType::I8));
    assert_eq!(
        Err(CoercionError::ValueOutOfRange),
        DataVector::I32(vec![0, 32768]).coerce(DataType::I16)
    );
    assert_eq!(
        Err(CoercionError::ValueOutOfRange),
        DataVector::I16(vec![-129]).coerce(DataType::I8)
    );
    assert_eq!(Err(CoercionError::DataTypeMismatch), ints.coerce(DataType::U8));
    assert_eq!(Err(CoercionError::DataTypeMismatch), ints.coerce(DataType::F64));
    assert_eq!(
        Err(CoercionError::DataTypeMismatch),
        DataVector::U8(vec![1]).coerce(DataType::I32)
    );
    assert_eq!(
        Err(CoercionError::DataTypeMismatch),
        DataVector::F32(vec![1]).coerce(DataType::F64)
    );
    assert_eq!(Ok(DataVector::F32(vec![7])), DataVector::F32(vec![7]).coerce(DataType::F32));
}

#[test]
fn test_coercion_is_monotone() {
    let order = [DataType::I8, DataType::I16, DataType::I32];
    let samples = [
        DataVector::I8(vec![-128, 0, 127]),
        DataVector::I16(vec![-129, 5]),
        DataVector::I16(vec![100, -100]),
        DataVector::I32(vec![40_000]),
        DataVector::I32(vec![-3, 3]),
    ];
    for values in &samples {
        for narrow in 0..3 {
            if let Ok(converted) = values.coerce(order[narrow]) {
                for wide in narrow..3 {
                    let wider = values.coerce(order[wide]).unwrap();
                    assert_eq!(converted.len(), wider.len());
                    assert_eq!(wider.coerce(order[narrow]), Ok(converted.clone()));
                }
            }
        }
    }
}

#[test]
fn test_reinterpret_bytes() {
    assert_eq!(
        Some(DataVector::I8(vec![0, 127, -128, -1])),
        DataVector::U8(vec![0, 127, 128, 255]).reinterpret_bytes()
    );
    assert_eq!(
        Some(DataVector::U8(vec![0, 127, 128, 255])),
        DataVector::I8(vec![0, 127, -128, -1]).reinterpret_bytes()
    );
    assert_eq!(None, DataVector::I16(vec![1]).reinterpret_bytes());
    assert_eq!(None, DataVector::F32(vec![1]).reinterpret_bytes());
}
