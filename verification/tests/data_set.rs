use netcdf3::{DataSet, DataType, DataVector, DimensionType, InvalidDataSet};

#[test]
fn test_data_set_dims() {
    let mut data_set = DataSet::new();
    data_set.set_unlimited_dim("dim_1", 10).unwrap();
    data_set.add_fixed_dim("dim_2", 20).unwrap();

    assert_eq!(2, data_set.num_dims());
    assert_eq!(true, data_set.has_unlimited_dim());
    assert_eq!(true, data_set.has_dim("dim_1"));
    assert_eq!(Some(10), data_set.get_dim_size("dim_1"));
    assert_eq!(Some(DimensionType::UnlimitedSize), data_set.get_dim_type("dim_1"));
    assert_eq!(true, data_set.has_dim("dim_2"));
    assert_eq!(Some(20), data_set.get_dim_size("dim_2"));
    assert_eq!(Some(DimensionType::FixedSize), data_set.get_dim_type("dim_2"));
    assert_eq!(10, data_set.num_records());
    assert_eq!(vec!["dim_1".to_string(), "dim_2".to_string()], data_set.dim_names());

    let dim_1 = data_set.get_dim("dim_1").unwrap();
    assert_eq!("dim_1", dim_1.name());
    assert_eq!(10, dim_1.size());
    assert_eq!(true, dim_1.is_unlimited());
    assert_eq!("dim_1", data_set.get_unlimited_dim().unwrap().name());
    assert_eq!("dim_2", data_set.dim_at(1).unwrap().name());
    assert!(data_set.dim_at(2).is_none());
}

#[test]
fn test_data_set_dim_errors() {
    let mut data_set = DataSet::new();
    data_set.add_fixed_dim("x", 3).unwrap();
    assert_eq!(
        Err(InvalidDataSet::DimensionAlreadyExists("x".to_string())),
        data_set.add_fixed_dim("x", 4)
    );
    assert_eq!(
        Err(InvalidDataSet::InvalidName("9x".to_string())),
        data_set.add_fixed_dim("9x", 4)
    );
    data_set.set_unlimited_dim("t", 0).unwrap();
    assert_eq!(
        Err(InvalidDataSet::UnlimitedAlreadyExists("t".to_string())),
        data_set.set_unlimited_dim("u", 0)
    );
    assert_eq!(2, data_set.num_dims());
    assert_eq!(Some(3), data_set.get_dim_size("x"));
}

#[test]
fn test_data_set_rename_dim() {
    let mut data_set = DataSet::new();
    data_set.add_fixed_dim("dim_1", 10).unwrap();
    data_set.add_fixed_dim("other", 2).unwrap();
    data_set.add_var("v", &["other", "dim_1"], DataType::I16).unwrap();

    data_set.rename_dim("dim_1", "dim_2").unwrap();
    assert_eq!(2, data_set.num_dims());
    assert_eq!(false, data_set.has_dim("dim_1"));
    assert_eq!(None, data_set.get_dim_size("dim_1"));
    assert_eq!(Some(10), data_set.get_dim_size("dim_2"));
    assert_eq!(vec![1, 0], data_set.get_var("v").unwrap().dim_ids());

    assert_eq!(
        Err(InvalidDataSet::DimensionNotFound("dim_1".to_string())),
        data_set.rename_dim("dim_1", "dim_3")
    );
    assert_eq!(
        Err(InvalidDataSet::DimensionAlreadyExists("other".to_string())),
        data_set.rename_dim("dim_2", "other")
    );
    assert_eq!(
        Err(InvalidDataSet::InvalidName("!".to_string())),
        data_set.rename_dim("dim_2", "!")
    );
    assert_eq!(Ok(()), data_set.rename_dim("dim_2", "dim_2"));
}

#[test]
fn test_data_set_remove_dim() {
    let mut data_set = DataSet::new();
    data_set.add_fixed_dim("a", 1).unwrap();
    data_set.add_fixed_dim("b", 2).unwrap();
    data_set.add_fixed_dim("c", 3).unwrap();
    data_set.add_var("v1", &["c", "b"], DataType::I8).unwrap();
    data_set.add_var("v2", &["b"], DataType::I8).unwrap();
    data_set.add_var("v3", &[], DataType::I8).unwrap();

    assert_eq!(
        Err(InvalidDataSet::DimensionInUse(vec!["v1".to_string(), "v2".to_string()])),
        data_set.remove_dim("b")
    );
    assert_eq!(
        Err(InvalidDataSet::DimensionNotFound("z".to_string())),
        data_set.remove_dim("z")
    );
    assert_eq!(3, data_set.num_dims());

    let removed = data_set.remove_dim("a").unwrap();
    assert_eq!("a", removed.name());
    assert_eq!(1, removed.size());
    assert_eq!(2, data_set.num_dims());
    assert_eq!(vec![1, 0], data_set.get_var("v1").unwrap().dim_ids());
    assert_eq!(vec![0], data_set.get_var("v2").unwrap().dim_ids());
    assert_eq!(Vec::<usize>::new(), data_set.get_var("v3").unwrap().dim_ids());
}

#[test]
fn test_data_set_add_var() {
    let mut data_set = DataSet::new();
    data_set.set_unlimited_dim("time", 0).unwrap();
    data_set.add_fixed_dim("lat", 3).unwrap();
    data_set.add_var("temp", &["time", "lat"], DataType::F32).unwrap();
    data_set.add_var("station", &["lat"], DataType::I32).unwrap();

    assert_eq!(2, data_set.num_vars());
    assert_eq!(true, data_set.has_var("temp"));
    assert_eq!(false, data_set.has_var("pressure"));
    assert_eq!(vec!["temp".to_string(), "station".to_string()], data_set.var_names());
    let temp = data_set.get_var("temp").unwrap();
    assert_eq!("temp", temp.name());
    assert_eq!(DataType::F32, temp.data_type());
    assert_eq!(2, temp.num_dims());
    assert_eq!(vec![0, 1], temp.dim_ids());
    assert_eq!(Some(true), data_set.is_record_var("temp"));
    assert_eq!(Some(false), data_set.is_record_var("station"));
    assert_eq!(None, data_set.is_record_var("pressure"));
    assert_eq!("station", data_set.var_at(1).unwrap().name());

    assert_eq!(
        Err(InvalidDataSet::VariableAlreadyExists("temp".to_string())),
        data_set.add_var("temp", &["lat"], DataType::I8)
    );
    assert_eq!(
        Err(InvalidDataSet::DimensionNotFound("lon".to_string())),
        data_set.add_var("w", &["lat", "lon", "alt"], DataType::I8)
    );
    assert_eq!(
        Err(InvalidDataSet::UnlimitedDimensionUsedMoreThanOnce("w".to_string())),
        data_set.add_var("w", &["time", "time"], DataType::I8)
    );
    assert_eq!(
        Err(InvalidDataSet::InvalidName("w w".to_string())),
        data_set.add_var("w w", &["time"], DataType::I8)
    );
    assert_eq!(2, data_set.num_vars());
}

#[test]
fn test_unlimited_dimension_not_first_is_rejected() {
    let mut data_set = DataSet::new();
    data_set.set_unlimited_dim("record", 0).unwrap();
    data_set.add_fixed_dim("x", 2).unwrap();
    data_set.add_var("kept", &["record", "x"], DataType::I32).unwrap();

    assert_eq!(
        Err(InvalidDataSet::UnlimitedDimensionNotFirst("bad".to_string())),
        data_set.add_var("bad", &["x", "record"], DataType::I32)
    );

    let mut expected = DataSet::new();
    expected.set_unlimited_dim("record", 0).unwrap();
    expected.add_fixed_dim("x", 2).unwrap();
    expected.add_var("kept", &["record", "x"], DataType::I32).unwrap();
    assert_eq!(expected, data_set);
    assert_eq!(false, data_set.has_var("bad"));
}

#[test]
fn test_data_set_rename_remove_var() {
    let mut data_set = DataSet::new();
    data_set.add_fixed_dim("x", 2).unwrap();
    data_set.add_var("a", &["x"], DataType::I8).unwrap();
    data_set.add_var("b", &[], DataType::F64).unwrap();

    data_set.rename_var("a", "c").unwrap();
    assert_eq!(vec!["c".to_string(), "b".to_string()], data_set.var_names());
    assert_eq!(
        Err(InvalidDataSet::VariableNotFound("a".to_string())),
        data_set.rename_var("a", "d")
    );
    assert_eq!(
        Err(InvalidDataSet::VariableAlreadyExists("b".to_string())),
        data_set.rename_var("c", "b")
    );
    assert_eq!(
        Err(InvalidDataSet::InvalidName("".to_string())),
        data_set.rename_var("c", "")
    );

    let removed = data_set.remove_var("c").unwrap();
    assert_eq!("c", removed.name());
    assert_eq!(vec![0], removed.dim_ids());
    assert_eq!(1, data_set.num_vars());
    assert_eq!(
        Err(InvalidDataSet::VariableNotFound("c".to_string())),
        data_set.remove_var("c").map(|v| v.name())
    );
    data_set.remove_dim("x").unwrap();
    assert_eq!(0, data_set.num_dims());
}

#[test]
fn test_data_set_global_attrs() {
    let mut data_set = DataSet::new();
    data_set.add_global_attr("title", DataVector::U8(b"scalar example".to_vec())).unwrap();
    data_set.add_global_attr("version", DataVector::I32(vec![3])).unwrap();

    assert_eq!(2, data_set.num_global_attrs());
    assert_eq!(true, data_set.has_global_attr("title"));
    let title = data_set.get_global_attr("title").unwrap();
    assert_eq!("title", title.name());
    assert_eq!(DataType::U8, title.data_type());
    assert_eq!(14, title.len());
    assert_eq!(&DataVector::U8(b"scalar example".to_vec()), title.values());
    assert_eq!("version", data_set.global_attr_at(1).unwrap().name());

    assert_eq!(
        Err(InvalidDataSet::AttributeAlreadyExists("title".to_string())),
        data_set.add_global_attr("title", DataVector::I8(vec![1]))
    );
    assert_eq!(
        Err(InvalidDataSet::InvalidName("-t".to_string())),
        data_set.add_global_attr("-t", DataVector::I8(vec![1]))
    );

    data_set.rename_global_attr("title", "name").unwrap();
    assert_eq!(false, data_set.has_global_attr("title"));
    assert_eq!(
        Err(InvalidDataSet::AttributeNotFound("title".to_string())),
        data_set.rename_global_attr("title", "x")
    );
    assert_eq!(
        Err(InvalidDataSet::AttributeAlreadyExists("version".to_string())),
        data_set.rename_global_attr("name", "version")
    );
    let removed = data_set.remove_global_attr("name").unwrap();
    assert_eq!(&DataVector::U8(b"scalar example".to_vec()), removed.values());
    assert_eq!(1, data_set.num_global_attrs());
    assert_eq!(
        Err(InvalidDataSet::AttributeNotFound("name".to_string())),
        data_set.remove_global_attr("name").map(|a| a.name())
    );
}

#[test]
fn test_data_set_var_attrs() {
    let mut data_set = DataSet::new();
    data_set.add_var("v", &[], DataType::I16).unwrap();
    data_set.add_var("w", &[], DataType::I16).unwrap();
    data_set.add_var_attr("v", "units", DataVector::U8(b"m".to_vec())).unwrap();
    data_set.add_var_attr("v", "scale", DataVector::I16(vec![2, 4])).unwrap();
    data_set.add_var_attr("w", "units", DataVector::U8(b"s".to_vec())).unwrap();

    let v = data_set.get_var("v").unwrap();
    assert_eq!(2, v.num_attrs());
    assert_eq!(true, v.has_attr("scale"));
    assert_eq!(false, v.has_attr("offset"));
    assert_eq!(&DataVector::I16(vec![2, 4]), v.get_attr("scale").unwrap().values());
    assert_eq!("units", v.attr_at(0).unwrap().name());
    assert_eq!(
        &DataVector::U8(b"s".to_vec()),
        data_set.get_var_attr("w", "units").unwrap().values()
    );
    assert!(data_set.get_var_attr("w", "scale").is_none());
    assert!(data_set.get_var_attr("z", "units").is_none());

    assert_eq!(
        Err(InvalidDataSet::VariableNotFound("z".to_string())),
        data_set.add_var_attr("z", "units", DataVector::I8(vec![]))
    );
    assert_eq!(
        Err(InvalidDataSet::AttributeAlreadyExists("units".to_string())),
        data_set.add_var_attr("v", "units", DataVector::I8(vec![]))
    );
    data_set.rename_var_attr("v", "units", "unit").unwrap();
    assert_eq!(true, data_set.get_var("v").unwrap().has_attr("unit"));
    assert_eq!(
        Err(InvalidDataSet::AttributeNotFound("units".to_string())),
        data_set.rename_var_attr("v", "units", "u")
    );
    let removed = data_set.remove_var_attr("v", "scale").unwrap();
    assert_eq!("scale", removed.name());
    assert_eq!(1, data_set.get_var("v").unwrap().num_attrs());
    assert_eq!(1, data_set.get_var("w").unwrap().num_attrs());
}

#[test]
fn test_data_set_clone() {
    let mut data_set = DataSet::new();
    data_set.set_unlimited_dim("t", 4).unwrap();
    data_set.add_fixed_dim("x", 2).unwrap();
    data_set.add_global_attr("title", DataVector::U8(b"copy".to_vec())).unwrap();
    data_set.add_var("v", &["t", "x"], DataType::F64).unwrap();
    data_set.add_var_attr("v", "scale", DataVector::I32(vec![3])).unwrap();
    let copy = data_set.clone();
    assert_eq!(data_set, copy);
    data_set.rename_var("v", "w").unwrap();
    assert_ne!(data_set, copy);
    assert_eq!(true, copy.has_var("v"));
    assert_eq!(vec![0, 1], copy.get_var("v").unwrap().clone().dim_ids());
    assert_eq!(
        &DataVector::I32(vec![3]),
        copy.get_var_attr("v", "scale").unwrap().clone().values()
    );
}

#[test]
fn test_create_and_read_dimensions() {
    const DIM_NAME_1: &str = "dim_1";
    const DIM_SIZE_1: usize = 10;
    const DIM_NAME_2: &str = "dim_2";
    const DIM_SIZE_2: usize = 20;

    let mut data_set = DataSet::new();
    data_set.set_unlimited_dim(DIM_NAME_1, DIM_SIZE_1).unwrap();
    data_set.add_fixed_dim(DIM_NAME_2, DIM_SIZE_2).unwrap();

    assert_eq!(2, data_set.num_dims());
    assert_eq!(true, data_set.has_unlimited_dim());
    assert_eq!(true, data_set.has_dim(DIM_NAME_1));
    assert_eq!(Some(DIM_SIZE_1), data_set.get_dim_size(DIM_NAME_1));
    assert_eq!(Some(DimensionType::UnlimitedSize), data_set.get_dim_type(DIM_NAME_1));
    assert_eq!(true, data_set.has_dim(DIM_NAME_2));
    assert_eq!(Some(DIM_SIZE_2), data_set.get_dim_size(DIM_NAME_2));
    assert_eq!(Some(DimensionType::FixedSize), data_set.get_dim_type(DIM_NAME_2));

    let dim_1 = data_set.get_dim(DIM_NAME_1).unwrap();
    assert_eq!(DIM_NAME_1, dim_1.name());
    assert_eq!(DIM_SIZE_1, dim_1.size());
    assert_eq!(true, dim_1.is_unlimited());
    assert_eq!(false, dim_1.is_fixed());
    assert_eq!(DimensionType::UnlimitedSize, dim_1.dim_type());

    let dim_2 = data_set.get_dim(DIM_NAME_2).unwrap();
    assert_eq!(DIM_NAME_2, dim_2.name());
    assert_eq!(DIM_SIZE_2, dim_2.size());
    assert_eq!(false, dim_2.is_unlimited());
    assert_eq!(true, dim_2.is_fixed());
    assert_eq!(DimensionType::FixedSize, dim_2.dim_type());
}

#[test]
fn test_rename_a_dimension() {
    const DIM_NAME_1: &str = "dim_1";
    const DIM_NAME_2: &str = "dim_2";
    const DIM_SIZE: usize = 10;

    let mut data_set = DataSet::new();
    data_set.add_fixed_dim(DIM_NAME_1, DIM_SIZE).unwrap();

    assert_eq!(1, data_set.num_dims());
    assert_eq!(false, data_set.has_unlimited_dim());
    assert_eq!(true, data_set.has_dim(DIM_NAME_1));
    assert_eq!(Some(DIM_SIZE), data_set.get_dim_size(DIM_NAME_1));
    assert_eq!(Some(DimensionType::FixedSize), data_set.get_dim_type(DIM_NAME_1));
    assert_eq!(false, data_set.has_dim(DIM_NAME_2));
    assert_eq!(None, data_set.get_dim_size(DIM_NAME_2));
    assert_eq!(None, data_set.get_dim_type(DIM_NAME_2));

    data_set.rename_dim(DIM_NAME_1, DIM_NAME_2).unwrap();

    assert_eq!(1, data_set.num_dims());
    assert_eq!(false, data_set.has_unlimited_dim());
    assert_eq!(false, data_set.has_dim(DIM_NAME_1));
    assert_eq!(None, data_set.get_dim_size(DIM_NAME_1));
    assert_eq!(None, data_set.get_dim_type(DIM_NAME_1));
    assert_eq!(true, data_set.has_dim(DIM_NAME_2));
    assert_eq!(Some(DIM_SIZE), data_set.get_dim_size(DIM_NAME_2));
    assert_eq!(Some(DimensionType::FixedSize), data_set.get_dim_type(DIM_NAME_2));
}

#[test]
fn test_remove_the_unlimited_dimension() {
    const DIM_NAME: &str = "dim_1";
    const DIM_SIZE: usize = 10;

    let mut data_set = DataSet::new();
    data_set.set_unlimited_dim(DIM_NAME, DIM_SIZE).unwrap();

    assert_eq!(1, data_set.num_dims());
    assert_eq!(true, data_set.has_unlimited_dim());
    assert_eq!(true, data_set.has_dim(DIM_NAME));
    assert_eq!(Some(DIM_SIZE), data_set.get_dim_size(DIM_NAME));
    assert_eq!(Some(DimensionType::UnlimitedSize), data_set.get_dim_type(DIM_NAME));

    let removed = data_set.remove_dim(DIM_NAME).unwrap();
    assert_eq!(DIM_NAME, removed.name());
    assert_eq!(true, removed.is_unlimited());

    assert_eq!(0, data_set.num_dims());
    assert_eq!(false, data_set.has_unlimited_dim());
    assert_eq!(false, data_set.has_dim(DIM_NAME));
    assert_eq!(None, data_set.get_dim_size(DIM_NAME));
    assert_eq!(None, data_set.get_dim_type(DIM_NAME));
    assert_eq!(0, data_set.num_records());
    // the place of the unlimited dimension is free again
    data_set.set_unlimited_dim("other", 1).unwrap();
    assert_eq!(1, data_set.num_records());
}
