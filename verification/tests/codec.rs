use netcdf3::{
    plan, DataSet, DataType, DataVector, FileReader, Header, InvalidDataSet, ReadError,
    VariableData, Version, WriteError,
};

fn write(
    data_set: &mut DataSet,
    data: &Vec<VariableData>,
    request: Option<Version>,
) -> Result<Vec<u8>, WriteError> {
    netcdf3::writer::write(data_set, data, request)
}

fn floats(values: &[f32]) -> DataVector {
    DataVector::F32(values.iter().map(|x| x.to_bits()).collect())
}

fn doubles(values: &[f64]) -> DataVector {
    DataVector::F64(values.iter().map(|x| x.to_bits()).collect())
}

#[test]
fn test_empty_data_set_is_header_only() {
    let mut data_set = DataSet::new();
    let bytes = write(&mut data_set, &vec![], Some(Version::Classic)).unwrap();
    let mut expected = b"CDF\x01".to_vec();
    expected.extend_from_slice(&[0u8; 28]);
    assert_eq!(32, bytes.len());
    assert_eq!(expected, bytes);

    let reader = FileReader::from_bytes(bytes).unwrap();
    assert_eq!(&DataSet::new(), reader.data_set());
    assert_eq!(Version::Classic, reader.version());
    assert_eq!(0, reader.num_records());
    assert_eq!(32, reader.header_len());
    assert_eq!(0, reader.data_set().num_dims());
    assert_eq!(0, reader.data_set().num_vars());
    assert_eq!(0, reader.data_set().num_global_attrs());
}

#[test]
fn test_written_bytes_are_exact() {
    let mut data_set = DataSet::new();
    data_set.add_fixed_dim("x", 2).unwrap();
    data_set.add_var("v", &["x"], DataType::I16).unwrap();
    let data = vec![VariableData::new("v", DataVector::I16(vec![1, -2]))];
    let bytes = write(&mut data_set, &data, None).unwrap();
    let expected: Vec<u8> = vec![
        0x43, 0x44, 0x46, 0x01, // magic
        0, 0, 0, 0, // number of records
        0, 0, 0, 0x0a, 0, 0, 0, 1, // dimensions
        0, 0, 0, 1, 0x78, 0, 0, 0, // "x"
        0, 0, 0, 2, // size
        0, 0, 0, 0, 0, 0, 0, 0, // no global attribute
        0, 0, 0, 0x0b, 0, 0, 0, 1, // variables
        0, 0, 0, 1, 0x76, 0, 0, 0, // "v"
        0, 0, 0, 1, 0, 0, 0, 0, // shape
        0, 0, 0, 0, 0, 0, 0, 0, // no attribute
        0, 0, 0, 3, // type
        0, 0, 0, 4, // vsize
        0, 0, 0, 80, // begin
        0, 1, 0xff, 0xfe, // data
    ];
    assert_eq!(expected, bytes);
}

#[test]
fn test_scalar_variables_round_trip() {
    let mut data_set = DataSet::new();
    data_set.add_global_attr("title", DataVector::U8(b"scalar example".to_vec())).unwrap();
    data_set.add_var("s8", &[], DataType::I8).unwrap();
    data_set.add_var("s16", &[], DataType::I16).unwrap();
    data_set.add_var("s32", &[], DataType::I32).unwrap();
    data_set.add_var("sf32", &[], DataType::F32).unwrap();
    data_set.add_var("sf64", &[], DataType::F64).unwrap();
    let data = vec![
        VariableData::new("s8", DataVector::I8(vec![1])),
        VariableData::new("s16", DataVector::I16(vec![2])),
        VariableData::new("s32", DataVector::I32(vec![3])),
        VariableData::new("sf32", floats(&[1.0])),
        VariableData::new("sf64", doubles(&[2.0])),
    ];
    let layout = plan(&data_set, 0, None).unwrap();
    assert_eq!(Some(4), layout.vsize_at(0));
    assert_eq!(Some(4), layout.vsize_at(1));
    assert_eq!(Some(4), layout.vsize_at(2));
    assert_eq!(Some(4), layout.vsize_at(3));
    assert_eq!(Some(8), layout.vsize_at(4));
    assert_eq!(None, layout.vsize_at(5));
    assert_eq!(5, layout.num_vars());

    let bytes = write(&mut data_set, &data, None).unwrap();
    assert_eq!(layout.header_len() + 4 + 4 + 4 + 4 + 8, bytes.len());
    let reader = FileReader::from_bytes(bytes).unwrap();
    assert_eq!(&data_set, reader.data_set());
    assert_eq!(
        &DataVector::U8(b"scalar example".to_vec()),
        reader.data_set().get_global_attr("title").unwrap().values()
    );
    assert_eq!(DataVector::I8(vec![1]), reader.read_var("s8").unwrap());
    assert_eq!(DataVector::I16(vec![2]), reader.read_var("s16").unwrap());
    assert_eq!(DataVector::I32(vec![3]), reader.read_var("s32").unwrap());
    assert_eq!(floats(&[1.0]), reader.read_var("sf32").unwrap());
    assert_eq!(doubles(&[2.0]), reader.read_var("sf64").unwrap());
    let begin = reader.begin_of("s8").unwrap();
    assert_eq!(Some(begin + 4), reader.begin_of("s16"));
    assert_eq!(Some(begin + 8), reader.begin_of("s32"));
    assert_eq!(Some(begin + 12), reader.begin_of("sf32"));
    assert_eq!(Some(begin + 16), reader.begin_of("sf64"));
    assert_eq!(None, reader.begin_of("none"));
}

fn temp_3d() -> DataSet {
    let mut data_set = DataSet::new();
    data_set.add_fixed_dim("latitude", 3).unwrap();
    data_set.add_fixed_dim("longitude", 4).unwrap();
    data_set.add_fixed_dim("time", 2).unwrap();
    data_set.add_var("latitude", &["latitude"], DataType::F32).unwrap();
    data_set.add_var("longitude", &["longitude"], DataType::F32).unwrap();
    data_set.add_var("time", &["time"], DataType::F32).unwrap();
    data_set.add_var("temp", &["time", "latitude", "longitude"], DataType::F32).unwrap();
    data_set.add_var_attr("temp", "units", DataVector::U8(b"Celsius".to_vec())).unwrap();
    data_set
}

#[test]
fn test_classic_3d_fixed() {
    let mut data_set = temp_3d();
    let temp: Vec<f32> = (0..24).map(|i| i as f32).collect();
    let data = vec![
        VariableData::new("temp", floats(&temp)),
        VariableData::new("time", floats(&[438_300.0, 438_324.0])),
        VariableData::new("longitude", floats(&[0.0, 0.5, 1.0, 1.5])),
        VariableData::new("latitude", floats(&[0.0, 0.5, 1.0])),
        VariableData::new("unused", DataVector::I8(vec![9])),
    ];
    let bytes = write(&mut data_set, &data, None).unwrap();
    assert_eq!(b"CDF\x01", &bytes[0..4]);
    let total = bytes.len();
    let reader = FileReader::from_bytes(bytes).unwrap();
    assert_eq!(Version::Classic, reader.version());
    assert_eq!(&temp_3d(), reader.data_set());

    let b0 = reader.begin_of("latitude").unwrap();
    let b1 = reader.begin_of("longitude").unwrap();
    let b2 = reader.begin_of("time").unwrap();
    let b3 = reader.begin_of("temp").unwrap();
    assert_eq!(reader.header_len() as u64, b0);
    assert!(b0 < b1 && b1 < b2 && b2 < b3);
    assert_eq!(b0 + 12, b1);
    assert_eq!(b1 + 16, b2);
    assert_eq!(b2 + 8, b3);
    assert_eq!(b3 + 96, total as u64);

    assert_eq!(floats(&temp), reader.read_var("temp").unwrap());
    assert_eq!(floats(&[0.0, 0.5, 1.0]), reader.read_var("latitude").unwrap());
    assert_eq!(floats(&temp), reader.read_record("temp", 0).unwrap());
    assert_eq!(Err(ReadError::RecordIndexOutOfBounds), reader.read_record("temp", 1));
    assert_eq!(
        Err(ReadError::VariableNotFound("pressure".to_string())),
        reader.read_var("pressure")
    );
    assert_eq!(
        Err(ReadError::VariableNotFound("pressure".to_string())),
        reader.read_record("pressure", 0)
    );
}

#[test]
fn test_offset64_promotion() {
    let mut data_set = temp_3d();
    data_set.add_fixed_dim("huge", 2_147_483_644).unwrap();
    data_set.add_var("wide", &["huge"], DataType::I8).unwrap();
    data_set.add_var("after", &["time"], DataType::I16).unwrap();

    let layout = plan(&data_set, 0, None).unwrap();
    assert_eq!(Version::Offset64Bit, layout.version());
    assert_eq!(Some(2_147_483_644), layout.vsize_at(4));
    let wide = layout.begin_at(4).unwrap();
    let after = layout.begin_at(5).unwrap();
    assert_eq!(wide + 2_147_483_644, after);
    assert!(after > 2_147_483_647);
    assert_eq!(None, layout.begin_at(6));

    assert_eq!(
        Err(WriteError::OffsetOverflow),
        plan(&data_set, 0, Some(Version::Classic)).map(|l| l.version())
    );
    let forced = plan(&data_set, 0, Some(Version::Offset64Bit)).unwrap();
    assert_eq!(Version::Offset64Bit, forced.version());
    // the header of the other version holds four bytes less for each variable
    let classic = plan(&temp_3d(), 0, None).unwrap();
    let wide_small = plan(&temp_3d(), 0, Some(Version::Offset64Bit)).unwrap();
    assert_eq!(Version::Classic, classic.version());
    assert_eq!(classic.header_len() + 16, wide_small.header_len());
}

#[test]
fn test_forced_offset64_round_trip() {
    let mut data_set = DataSet::new();
    data_set.add_fixed_dim("x", 3).unwrap();
    data_set.add_var("v", &["x"], DataType::I8).unwrap();
    data_set.add_var("w", &["x"], DataType::I32).unwrap();
    let data = vec![
        VariableData::new("v", DataVector::I8(vec![-1, 0, 127])),
        VariableData::new("w", DataVector::I32(vec![i32::MIN, -1, i32::MAX])),
    ];
    let bytes = write(&mut data_set, &data, Some(Version::Offset64Bit)).unwrap();
    assert_eq!(b"CDF\x02", &bytes[0..4]);
    let reader = FileReader::from_bytes(bytes).unwrap();
    assert_eq!(Version::Offset64Bit, reader.version());
    assert_eq!(&data_set, reader.data_set());
    assert_eq!(DataVector::I8(vec![-1, 0, 127]), reader.read_var("v").unwrap());
    assert_eq!(DataVector::I32(vec![i32::MIN, -1, i32::MAX]), reader.read_var("w").unwrap());
    assert_eq!(Some(reader.begin_of("v").unwrap() + 4), reader.begin_of("w"));
}

#[test]
fn test_format_limit_exceeded() {
    let mut data_set = DataSet::new();
    data_set.add_fixed_dim("huge", 2_147_483_647).unwrap();
    data_set.add_var("wide", &["huge"], DataType::I8).unwrap();
    assert_eq!(
        Err(WriteError::FormatLimitExceeded),
        plan(&data_set, 0, None).map(|l| l.version())
    );
    let mut data_set = DataSet::new();
    data_set.add_fixed_dim("huge", usize::MAX).unwrap();
    assert_eq!(
        Err(WriteError::FormatLimitExceeded),
        plan(&data_set, 0, None).map(|l| l.version())
    );
    assert_eq!(
        Err(WriteError::FormatLimitExceeded),
        plan(&DataSet::new(), 2_147_483_648, None).map(|l| l.version())
    );
}

fn records_data_set() -> DataSet {
    let mut data_set = DataSet::new();
    data_set.set_unlimited_dim("record", 0).unwrap();
    data_set.add_fixed_dim("pair", 2).unwrap();
    data_set.add_var("a", &["record"], DataType::I32).unwrap();
    data_set.add_var("b", &["record", "pair"], DataType::F64).unwrap();
    data_set
}

#[test]
fn test_unlimited_records() {
    let mut data_set = records_data_set();
    let a: Vec<i32> = vec![10, 11, 12, 13, 14];
    let b: Vec<f64> = (0..10).map(|i| i as f64 * 0.5).collect();
    let data =
        vec![VariableData::new("a", DataVector::I32(a.clone())), VariableData::new("b", doubles(&b))];
    let bytes = write(&mut data_set, &data, None).unwrap();
    assert_eq!(5, data_set.num_records());
    assert_eq!(Some(5), data_set.get_dim_size("record"));
    assert_eq!(&[0u8, 0, 0, 5], &bytes[4..8]);

    let raw = bytes.clone();
    let reader = FileReader::from_bytes(bytes).unwrap();
    assert_eq!(5, reader.num_records());
    assert_eq!(&data_set, reader.data_set());
    assert_eq!(Some(5), reader.data_set().get_dim_size("record"));
    assert_eq!(DataVector::I32(a.clone()), reader.read_var("a").unwrap());
    assert_eq!(doubles(&b), reader.read_var("b").unwrap());
    for i in 0..5 {
        assert_eq!(DataVector::I32(vec![a[i]]), reader.read_record("a", i).unwrap());
        assert_eq!(doubles(&b[2 * i..2 * i + 2]), reader.read_record("b", i).unwrap());
    }
    assert_eq!(Err(ReadError::RecordIndexOutOfBounds), reader.read_record("b", 5));

    let start = reader.header_len();
    assert_eq!(Some(start as u64), reader.begin_of("a"));
    assert_eq!(Some(start as u64 + 4), reader.begin_of("b"));
    assert_eq!(start + 5 * 20, raw.len());
    for i in 0..5 {
        let at = start + 20 * i;
        assert_eq!(&a[i].to_be_bytes(), &raw[at..at + 4]);
        assert_eq!(&b[2 * i].to_be_bytes(), &raw[at + 4..at + 12]);
        assert_eq!(&b[2 * i + 1].to_be_bytes(), &raw[at + 12..at + 20]);
    }
}

#[test]
fn test_single_record_variable_is_not_padded() {
    let mut data_set = DataSet::new();
    data_set.set_unlimited_dim("t", 0).unwrap();
    data_set.add_fixed_dim("x", 3).unwrap();
    data_set.add_var("fixed", &["x"], DataType::I8).unwrap();
    data_set.add_var("rec", &["t", "x"], DataType::I8).unwrap();
    let data = vec![
        VariableData::new("fixed", DataVector::I8(vec![1, 2, 3])),
        VariableData::new("rec", DataVector::I8(vec![4, 5, 6, 7, 8, 9])),
    ];
    let layout = plan(&data_set, 2, None).unwrap();
    assert_eq!(Some(4), layout.vsize_at(0));
    assert_eq!(Some(4), layout.vsize_at(1));
    let bytes = write(&mut data_set, &data, None).unwrap();
    let start = layout.header_len();
    assert_eq!(start + 4 + 6, bytes.len());
    assert_eq!(&[1u8, 2, 3, 0, 4, 5, 6, 7, 8, 9], &bytes[start..]);
    let reader = FileReader::from_bytes(bytes).unwrap();
    assert_eq!(DataVector::I8(vec![7, 8, 9]), reader.read_record("rec", 1).unwrap());
    assert_eq!(DataVector::I8(vec![4, 5, 6, 7, 8, 9]), reader.read_var("rec").unwrap());
    assert_eq!(DataVector::I8(vec![1, 2, 3]), reader.read_var("fixed").unwrap());
}

#[test]
fn test_two_record_variables_are_padded() {
    let mut data_set = DataSet::new();
    data_set.set_unlimited_dim("t", 7).unwrap();
    data_set.add_var("p", &["t"], DataType::I8).unwrap();
    data_set.add_var("q", &["t"], DataType::I16).unwrap();
    let data = vec![
        VariableData::new("q", DataVector::I16(vec![258, -1])),
        VariableData::new("p", DataVector::I8(vec![1, 2])),
    ];
    let bytes = write(&mut data_set, &data, None).unwrap();
    assert_eq!(2, data_set.num_records());
    let reader = FileReader::from_bytes(bytes.clone()).unwrap();
    let start = reader.header_len();
    assert_eq!(
        &[1u8, 0, 0, 0, 1, 2, 0, 0, 2, 0, 0, 0, 0xff, 0xff, 0, 0],
        &bytes[start..]
    );
    assert_eq!(DataVector::I16(vec![258, -1]), reader.read_var("q").unwrap());
    assert_eq!(DataVector::I8(vec![2]), reader.read_record("p", 1).unwrap());
}

#[test]
fn test_number_of_records_without_record_variable() {
    let mut data_set = DataSet::new();
    data_set.set_unlimited_dim("t", 7).unwrap();
    let bytes = write(&mut data_set, &vec![], None).unwrap();
    assert_eq!(7, data_set.num_records());
    let reader = FileReader::from_bytes(bytes).unwrap();
    assert_eq!(7, reader.num_records());
    assert_eq!(Some(7), reader.data_set().get_dim_size("t"));
}

#[test]
fn test_write_errors() {
    let mut data_set = records_data_set();
    data_set.add_var("c", &["pair"], DataType::I8).unwrap();
    let before = {
        let mut d = records_data_set();
        d.add_var("c", &["pair"], DataType::I8).unwrap();
        d
    };
    let a = || VariableData::new("a", DataVector::I32(vec![1, 2, 3]));
    let b = |n: usize| VariableData::new("b", doubles(&vec![0.0; n]));
    let c = |n: usize| VariableData::new("c", DataVector::I8(vec![0; n]));

    assert_eq!(
        Err(WriteError::VariableNotFound("b".to_string())),
        write(&mut data_set, &vec![a(), c(2)], None)
    );
    assert_eq!(
        Err(WriteError::DataTypeMismatch("a".to_string())),
        write(&mut data_set, &vec![VariableData::new("a", DataVector::I16(vec![1])), b(6), c(2)], None)
    );
    assert_eq!(
        Err(WriteError::RecordLengthMismatch("b".to_string(), 6, 5)),
        write(&mut data_set, &vec![a(), b(5), c(2)], None)
    );
    assert_eq!(
        Err(WriteError::DataLengthMismatch("c".to_string(), 2, 3)),
        write(&mut data_set, &vec![a(), b(6), c(3)], None)
    );
    assert_eq!(before, data_set);
    assert_eq!(0, data_set.num_records());
    assert!(write(&mut data_set, &vec![a(), b(6), c(2)], None).is_ok());
    assert_eq!(3, data_set.num_records());
}

#[test]
fn test_read_errors() {
    assert_eq!(Some(ReadError::UnexpectedEndOfInput), FileReader::from_bytes(vec![]).err());
    assert_eq!(
        Some(ReadError::UnexpectedEndOfInput),
        FileReader::from_bytes(b"CDF".to_vec()).err()
    );
    assert_eq!(
        Some(ReadError::InvalidMagic),
        FileReader::from_bytes(b"CDX\x01\0\0\0\0".to_vec()).err()
    );
    assert_eq!(
        Some(ReadError::InvalidVersion(5)),
        FileReader::from_bytes(b"CDF\x05\0\0\0\0".to_vec()).err()
    );
    assert_eq!(
        Some(ReadError::UnexpectedEndOfInput),
        FileReader::from_bytes(b"CDF\x01\0\0\0\0\0\0\0\0".to_vec()).err()
    );
    let mut bad_tag = b"CDF\x01\0\0\0\0".to_vec();
    bad_tag.extend_from_slice(&[0, 0, 0, 0x0b, 0, 0, 0, 1]);
    assert_eq!(Some(ReadError::InvalidTypeTag(0x0b)), FileReader::from_bytes(bad_tag).err());
}

fn small_file() -> Vec<u8> {
    let mut data_set = DataSet::new();
    data_set.add_fixed_dim("x", 2).unwrap();
    data_set.add_var("v", &["x"], DataType::I16).unwrap();
    let data = vec![VariableData::new("v", DataVector::I16(vec![1, -2]))];
    write(&mut data_set, &data, None).unwrap()
}

#[test]
fn test_read_damaged_files() {
    let good = small_file();
    assert_eq!(84, good.len());
    assert!(FileReader::from_bytes(good.clone()).is_ok());

    let mut truncated = good.clone();
    truncated.truncate(83);
    assert_eq!(Some(ReadError::Truncated), FileReader::from_bytes(truncated).err());
    let mut cut_header = good.clone();
    cut_header.truncate(79);
    assert_eq!(Some(ReadError::UnexpectedEndOfInput), FileReader::from_bytes(cut_header).err());

    let mut bad_name = good.clone();
    bad_name[20] = b'1';
    assert_eq!(Some(ReadError::InvalidName(vec![b'1'])), FileReader::from_bytes(bad_name).err());
    let mut not_utf8 = good.clone();
    not_utf8[20] = 0xff;
    assert_eq!(Some(ReadError::InvalidName(vec![0xff])), FileReader::from_bytes(not_utf8).err());

    let mut bad_type = good.clone();
    bad_type[71] = 7;
    assert_eq!(Some(ReadError::InvalidTypeTag(7)), FileReader::from_bytes(bad_type).err());
    let mut bad_dim = good.clone();
    bad_dim[59] = 1;
    assert_eq!(Some(ReadError::DimensionNotFound(1)), FileReader::from_bytes(bad_dim).err());

    // a size of zero marks the unlimited dimension, and makes `v` a record
    // variable of a file without records
    let mut unlimited = good.clone();
    unlimited[27] = 0;
    let reader = FileReader::from_bytes(unlimited).unwrap();
    assert_eq!(true, reader.data_set().has_unlimited_dim());
    assert_eq!(DataVector::I16(vec![]), reader.read_var("v").unwrap());

    // the mark of a file that was being streamed is read as no record
    let mut streaming = good.clone();
    streaming[4..8].copy_from_slice(&[0xff; 4]);
    let reader = FileReader::from_bytes(streaming).unwrap();
    assert_eq!(0, reader.num_records());
}

#[test]
fn test_read_duplicates_are_refused() {
    let mut data_set = DataSet::new();
    data_set.add_fixed_dim("x", 2).unwrap();
    data_set.add_fixed_dim("y", 2).unwrap();
    let bytes = write(&mut data_set, &vec![], None).unwrap();
    // dimension list: tag and count at 8, "x" at 16..24, size at 24, "y" at 28..36
    assert_eq!(b'y', bytes[32]);
    let mut same = bytes.clone();
    same[32] = b'x';
    assert_eq!(
        Some(ReadError::InvalidDataSet(InvalidDataSet::DimensionAlreadyExists("x".to_string()))),
        FileReader::from_bytes(same).err()
    );
    let mut two_unlimited = bytes.clone();
    two_unlimited[27] = 0;
    two_unlimited[39] = 0;
    assert_eq!(
        Some(ReadError::InvalidDataSet(InvalidDataSet::UnlimitedAlreadyExists("x".to_string()))),
        FileReader::from_bytes(two_unlimited).err()
    );
}

#[test]
fn test_header_parse() {
    let bytes = small_file();
    let header = Header::parse(&bytes).unwrap();
    assert_eq!(Version::Classic, header.version());
    assert_eq!(0, header.num_records());
    assert_eq!(80, header.len());
    assert_eq!(Some(80), header.begin_at(0));
    assert_eq!(None, header.begin_at(1));
    assert_eq!(1, header.data_set().num_vars());
    // the header is read whatever follows it
    assert!(Header::parse(&bytes[0..80]).is_ok());
    assert_eq!(Some(ReadError::UnexpectedEndOfInput), Header::parse(&bytes[0..79]).err());
}

#[test]
fn test_attributes_round_trip() {
    let mut data_set = DataSet::new();
    data_set.add_fixed_dim("x", 1).unwrap();
    data_set.add_var("v", &["x"], DataType::F64).unwrap();
    data_set.add_global_attr("bytes", DataVector::I8(vec![-128, 127, 0])).unwrap();
    data_set.add_global_attr("empty_text", DataVector::U8(vec![])).unwrap();
    data_set.add_global_attr("text_with_nul", DataVector::U8(vec![b'a', 0, b'b'])).unwrap();
    data_set.add_global_attr("shorts", DataVector::I16(vec![-32768, 32767, 5])).unwrap();
    data_set.add_global_attr("ints", DataVector::I32(vec![i32::MIN, i32::MAX])).unwrap();
    data_set.add_global_attr("floats", floats(&[1.5, -0.0, f32::MAX])).unwrap();
    data_set.add_global_attr("doubles", doubles(&[f64::MIN_POSITIVE, 1.0e300])).unwrap();
    data_set.add_var_attr("v", "caf\u{e9}", DataVector::U8("\u{e9}t\u{e9}".as_bytes().to_vec())).unwrap();
    data_set.add_var_attr("v", "valid_range", doubles(&[0.0, 1.0])).unwrap();
    let data = vec![VariableData::new("v", doubles(&[3.25]))];
    let bytes = write(&mut data_set, &data, None).unwrap();
    let reader = FileReader::from_bytes(bytes).unwrap();
    assert_eq!(&data_set, reader.data_set());
    assert_eq!(7, reader.data_set().num_global_attrs());
    assert_eq!(
        &DataVector::U8(vec![b'a', 0, b'b']),
        reader.data_set().get_global_attr("text_with_nul").unwrap().values()
    );
    assert_eq!(
        &floats(&[1.5, -0.0, f32::MAX]),
        reader.data_set().get_global_attr("floats").unwrap().values()
    );
    assert_eq!(true, reader.data_set().get_var("v").unwrap().has_attr("caf\u{e9}"));
    assert_eq!(doubles(&[3.25]), reader.read_var("v").unwrap());
}

#[test]
fn test_read_var_as() {
    let mut data_set = DataSet::new();
    data_set.add_fixed_dim("x", 3).unwrap();
    data_set.add_var("small", &["x"], DataType::I16).unwrap();
    data_set.add_var("large", &["x"], DataType::I16).unwrap();
    data_set.add_var("text", &["x"], DataType::U8).unwrap();
    let data = vec![
        VariableData::new("small", DataVector::I16(vec![-128, 0, 127])),
        VariableData::new("large", DataVector::I16(vec![-128, 0, 128])),
        VariableData::new("text", DataVector::U8(vec![b'a', b'b', 200])),
    ];
    let bytes = write(&mut data_set, &data, None).unwrap();
    let reader = FileReader::from_bytes(bytes).unwrap();
    assert_eq!(Ok(DataVector::I8(vec![-128, 0, 127])), reader.read_var_as("small", DataType::I8));
    assert_eq!(Ok(DataVector::I32(vec![-128, 0, 127])), reader.read_var_as("small", DataType::I32));
    assert_eq!(Ok(DataVector::I16(vec![-128, 0, 127])), reader.read_var_as("small", DataType::I16));
    assert_eq!(Err(ReadError::ValueOutOfRange), reader.read_var_as("large", DataType::I8));
    assert_eq!(Ok(DataVector::I32(vec![-128, 0, 128])), reader.read_var_as("large", DataType::I32));
    assert_eq!(
        Err(ReadError::DataTypeMismatch("text".to_string())),
        reader.read_var_as("text", DataType::I8)
    );
    assert_eq!(
        Err(ReadError::DataTypeMismatch("small".to_string())),
        reader.read_var_as("small", DataType::F32)
    );
    assert_eq!(Ok(DataVector::U8(vec![b'a', b'b', 200])), reader.read_var_as("text", DataType::U8));
    assert_eq!(
        Err(ReadError::VariableNotFound("none".to_string())),
        reader.read_var_as("none", DataType::I8)
    );
    assert_eq!(
        Some(DataVector::I8(vec![97, 98, -56])),
        reader.read_var("text").unwrap().reinterpret_bytes()
    );
}

#[test]
fn test_ranges_are_disjoint_and_within_the_file() {
    let mut data_set = DataSet::new();
    data_set.set_unlimited_dim("t", 0).unwrap();
    data_set.add_fixed_dim("x", 3).unwrap();
    data_set.add_var("r1", &["t", "x"], DataType::I8).unwrap();
    data_set.add_var("f1", &["x"], DataType::I16).unwrap();
    data_set.add_var("r2", &["t"], DataType::F64).unwrap();
    data_set.add_var("f2", &[], DataType::U8).unwrap();
    let data = vec![
        VariableData::new("r1", DataVector::I8(vec![1; 12])),
        VariableData::new("f1", DataVector::I16(vec![2; 3])),
        VariableData::new("r2", doubles(&[0.5; 4])),
        VariableData::new("f2", DataVector::U8(vec![b'z'])),
    ];
    let bytes = write(&mut data_set, &data, None).unwrap();
    let total = bytes.len() as u64;
    let reader = FileReader::from_bytes(bytes).unwrap();
    let header_end = reader.header_len() as u64;
    let stride = 4 + 8;
    // (start, length) of every run of bytes of a variable
    let mut ranges: Vec<(u64, u64)> = vec![
        (reader.begin_of("f1").unwrap(), 8),
        (reader.begin_of("f2").unwrap(), 4),
    ];
    for record in 0..4 {
        ranges.push((reader.begin_of("r1").unwrap() + record * stride, 4));
        ranges.push((reader.begin_of("r2").unwrap() + record * stride, 8));
    }
    assert_eq!(header_end + 8 + 4 + 4 * stride, total);
    for (i, a) in ranges.iter().enumerate() {
        assert!(header_end <= a.0 && a.0 + a.1 <= total);
        for b in ranges.iter().skip(i + 1) {
            assert!(a.0 + a.1 <= b.0 || b.0 + b.1 <= a.0);
        }
    }
    assert_eq!(DataVector::I8(vec![1; 12]), reader.read_var("r1").unwrap());
    assert_eq!(doubles(&[0.5; 4]), reader.read_var("r2").unwrap());
}

#[test]
fn test_names_survive_the_codec() {
    let names = ["a", "_", "x.y+z-w@v", "caf\u{e9}", "\u{4e16}\u{754c}", "A1_b2"];
    let mut data_set = DataSet::new();
    for name in names {
        assert!(netcdf3::is_valid_name(name));
        data_set.add_fixed_dim(name, 1).unwrap();
        data_set.add_var(name, &[name], DataType::I8).unwrap();
        data_set.add_global_attr(name, DataVector::I8(vec![1])).unwrap();
    }
    let data: Vec<VariableData> =
        names.iter().map(|n| VariableData::new(n, DataVector::I8(vec![7]))).collect();
    let bytes = write(&mut data_set, &data, None).unwrap();
    let reader = FileReader::from_bytes(bytes).unwrap();
    assert_eq!(names.to_vec(), reader.data_set().dim_names());
    assert_eq!(names.to_vec(), reader.data_set().var_names());
    for name in reader.data_set().var_names() {
        assert!(netcdf3::is_valid_name(&name));
    }
}
