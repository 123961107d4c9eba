use netcdf3::{Dimension, DimensionSize, DimensionType, InvalidDataSet};
use std::rc::Rc;

#[test]
fn test_dim_new_fixed_size() {
    const DIM_NAME: &str = "dim_1";
    const DIM_SIZE: usize = 10;

    let dim = Dimension::new_fixed_size(DIM_NAME, DIM_SIZE).unwrap();

    assert_eq!(DIM_NAME, dim.name());
    assert_eq!(DIM_SIZE, dim.size());
    assert_eq!(DimensionType::FixedSize, dim.dim_type());
    assert_eq!(true, dim.is_fixed());
    assert_eq!(false, dim.is_unlimited())
}

#[test]
fn test_dim_new_unlimited_size() {
    const DIM_NAME: &str = "dim_1";
    const DIM_SIZE: usize = 10;

    let dim = Dimension::new_unlimited_size(DIM_NAME, DIM_SIZE).unwrap();

    assert_eq!(DIM_NAME, dim.name());
    assert_eq!(DIM_SIZE, dim.size());
    assert_eq!(DimensionType::UnlimitedSize, dim.dim_type());
    assert_eq!(false, dim.is_fixed());
    assert_eq!(true, dim.is_unlimited());
}

#[test]
fn test_dim_equality() {
    // test equality between 2 fixed-size dimension
    {
        let dim_a: Dimension = Dimension::new_fixed_size("name_1", 180).unwrap();
        let dim_b: Dimension = Dimension::new_fixed_size("name_1", 180).unwrap();
        assert_eq!(dim_a, dim_b);
    }

    // test equality between 2 fixed-size dimension with different sizes
    {
        let dim_a: Dimension = Dimension::new_fixed_size("name_1", 90).unwrap();
        let dim_b: Dimension = Dimension::new_fixed_size("name_1", 180).unwrap();
        assert_ne!(dim_a, dim_b);
    }

    // test equality between 2 fixed-size dimension with different names
    {
        let dim_a: Dimension = Dimension::new_fixed_size("name_1", 180).unwrap();
        let dim_b: Dimension = Dimension::new_fixed_size("name_2", 180).unwrap();
        assert_ne!(dim_a, dim_b);
    }

    // test equality between 2 unlimited-size dimension
    {
        let dim_a: Dimension = Dimension::new_unlimited_size("name_1", 180).unwrap();
        let dim_b: Dimension = Dimension::new_unlimited_size("name_1", 180).unwrap();
        assert_eq!(dim_a, dim_b);
    }

    // test equality between 2 unlimited-size dimension with different sizes
    {
        let dim_a: Dimension = Dimension::new_unlimited_size("name_1", 90).unwrap();
        let dim_b: Dimension = Dimension::new_unlimited_size("name_1", 180).unwrap();
        assert_ne!(dim_a, dim_b);
    }

    // test equality between 2 unlimited-size dimension with different names
    {
        let dim_a: Dimension = Dimension::new_unlimited_size("name_1", 180).unwrap();
        let dim_b: Dimension = Dimension::new_unlimited_size("name_2", 180).unwrap();
        assert_ne!(dim_a, dim_b);
    }

    // test equality between 1 unlimited-size dimension and 1 fixed-size dimension
    {
        let dim_a: Dimension = Dimension::new_fixed_size("name_1", 180).unwrap();
        let dim_b: Dimension = Dimension::new_unlimited_size("name_1", 180).unwrap();
        assert_ne!(dim_a, dim_b);
    }
}

#[test]
fn test_rc_dim_equality() {
    // test equality between 2 fixed-size dimension
    {
        let dim_a: Rc<Dimension> = Rc::new(Dimension::new_fixed_size("name_1", 180).unwrap());
        let dim_b: Rc<Dimension> = Rc::new(Dimension::new_fixed_size("name_1", 180).unwrap());

        assert_eq!(dim_a, dim_b);
        assert!(!Rc::ptr_eq(&dim_a, &dim_b));

        let dim_c: Rc<Dimension> = Rc::clone(&dim_a);
        assert_eq!(dim_a, dim_c);
        assert_eq!(dim_b, dim_c);
        assert!(Rc::ptr_eq(&dim_a, &dim_c));
        assert!(!Rc::ptr_eq(&dim_b, &dim_c));
    }
}

#[test]
fn test_dim_size_new() {
    let fixed = DimensionSize::new(7, DimensionType::FixedSize);
    assert_eq!(DimensionSize::Fixed(7), fixed);
    assert_eq!(7, fixed.size());
    assert_eq!(DimensionType::FixedSize, fixed.dim_type());
    let unlimited = DimensionSize::new(0, DimensionType::UnlimitedSize);
    assert_eq!(DimensionSize::Unlimited(0), unlimited);
    assert_eq!(0, unlimited.size());
    assert_eq!(DimensionType::UnlimitedSize, unlimited.dim_type());
}

#[test]
fn test_dim_invalid_name() {
    assert_eq!(
        Err(InvalidDataSet::InvalidName("1dim".to_string())),
        Dimension::new_fixed_size("1dim", 3)
    );
    assert_eq!(
        Err(InvalidDataSet::InvalidName("".to_string())),
        Dimension::new_unlimited_size("", 3)
    );
    assert_eq!(Ok(()), Dimension::check_dim_name("lat.itude-2+@_"));
    assert_eq!(
        Err(InvalidDataSet::InvalidName("a b".to_string())),
        Dimension::check_dim_name("a b")
    );
}

#[test]
fn test_dim_clone() {
    let dim = Dimension::new_unlimited_size("time", 12).unwrap();
    let copy = dim.clone();
    assert_eq!(dim, copy);
    assert_eq!("time", copy.name());
    assert_eq!(12, copy.size());
}
