//! Dimensions: named extents along which variables are indexed.
use crate::error::{InvalidDataSet, InvalidDataSetView};
use crate::data_set::named::Named;
use crate::name_string::{is_valid_name, valid_name};
use vstd::prelude::*;
use vstd::std_specs::cmp::PartialEqSpecImpl;
use vstd::string::*;

verus! {

/// The two kinds of dimension.
#[derive(Debug, Clone, Copy, PartialEq, Eq, Structural)]
pub enum DimensionType {
    /// The one dimension whose size grows with the records stored.
    UnlimitedSize,
    /// A dimension whose size is set once.
    FixedSize,
}

/// The size of a dimension, together with its kind.
#[derive(Debug, Clone, Copy, PartialEq, Eq, Structural)]
pub enum DimensionSize {
    /// The current size of the unlimited dimension: the number of records.
    Unlimited(usize),
    /// The size of a fixed dimension.
    Fixed(usize),
}

impl DimensionSize {
    pub open spec fn spec_size(self) -> nat {
        match self {
            DimensionSize::Unlimited(n) => n as nat,
            DimensionSize::Fixed(n) => n as nat,
        }
    }

    pub open spec fn spec_type(self) -> DimensionType {
        match self {
            DimensionSize::Unlimited(_) => DimensionType::UnlimitedSize,
            DimensionSize::Fixed(_) => DimensionType::FixedSize,
        }
    }

    /// Makes a size of the given kind.
    pub fn new(size: usize, dim_type: DimensionType) -> (r: DimensionSize)
        ensures
            r.spec_size() == size,
            r.spec_type() == dim_type,
    {
        match dim_type {
            DimensionType::FixedSize => DimensionSize::Fixed(size),
            DimensionType::UnlimitedSize => DimensionSize::Unlimited(size),
        }
    }

    /// The number of indices along the dimension.
    pub fn size(&self) -> (r: usize)
        ensures
            r == self.spec_size(),
    {
        match self {
            DimensionSize::Unlimited(size) => *size,
            DimensionSize::Fixed(size) => *size,
        }
    }

    /// The kind of the dimension that has this size.
    pub fn dim_type(&self) -> (r: DimensionType)
        ensures
            r == self.spec_type(),
    {
        match self {
            DimensionSize::Unlimited(_) => DimensionType::UnlimitedSize,
            DimensionSize::Fixed(_) => DimensionType::FixedSize,
        }
    }
}

/// A dimension as contracts see it.
pub ghost struct DimensionView {
    pub name: Seq<char>,
    pub size: nat,
    pub dim_type: DimensionType,
}

impl Named for DimensionView {
    open spec fn name_of(&self) -> Seq<char> {
        self.name
    }
}

impl DimensionView {
    /// Whether this is the unlimited dimension.
    pub open spec fn is_unlimited(self) -> bool {
        self.dim_type == DimensionType::UnlimitedSize
    }
}

/// A named extent. Its name is always a valid name.
#[derive(Debug)]
pub struct Dimension {
    pub(crate) name: String,
    pub(crate) size: DimensionSize,
}

impl View for Dimension {
    type V = DimensionView;

    open(crate) spec fn view(&self) -> DimensionView {
        DimensionView {
            name: self.name@,
            size: self.size.spec_size(),
            dim_type: self.size.spec_type(),
        }
    }
}

impl Dimension {
    /// What holds of every dimension: its name is a valid name.
    #[verifier::type_invariant]
    pub open spec fn wf(self) -> bool {
        valid_name(self@.name)
    }

    /// Makes a fixed dimension, or refuses the name.
    pub fn new_fixed_size(name: &str, size: usize) -> (r: Result<Dimension, InvalidDataSet>)
        ensures
            valid_name(name@) ==> r is Ok && r.unwrap()@ == (DimensionView {
                name: name@,
                size: size as nat,
                dim_type: DimensionType::FixedSize,
            }),
            !valid_name(name@) ==> r is Err && r.unwrap_err()@ == InvalidDataSetView::InvalidName(
                name@,
            ),
    {
        match Dimension::check_dim_name(name) {
            Ok(()) => Ok(
                Dimension {
                    name: name.to_owned(),
                    size: DimensionSize::new(size, DimensionType::FixedSize),
                },
            ),
            Err(e) => Err(e),
        }
    }

    /// Makes the unlimited dimension, or refuses the name.
    pub fn new_unlimited_size(name: &str, size: usize) -> (r: Result<Dimension, InvalidDataSet>)
        ensures
            valid_name(name@) ==> r is Ok && r.unwrap()@ == (DimensionView {
                name: name@,
                size: size as nat,
                dim_type: DimensionType::UnlimitedSize,
            }),
            !valid_name(name@) ==> r is Err && r.unwrap_err()@ == InvalidDataSetView::InvalidName(
                name@,
            ),
    {
        match Dimension::check_dim_name(name) {
            Ok(()) => Ok(
                Dimension {
                    name: name.to_owned(),
                    size: DimensionSize::new(size, DimensionType::UnlimitedSize),
                },
            ),
            Err(e) => Err(e),
        }
    }

    /// The name of the dimension.
    pub fn name(&self) -> (r: String)
        ensures
            r@ == self@.name,
    {
        self.name.clone()
    }

    /// The number of indices along the dimension.
    pub fn size(&self) -> (r: usize)
        ensures
            r == self@.size,
    {
        self.size.size()
    }

    /// The kind of the dimension.
    pub fn dim_type(&self) -> (r: DimensionType)
        ensures
            r == self@.dim_type,
    {
        self.size.dim_type()
    }

    /// Whether this is the unlimited dimension.
    pub fn is_unlimited(&self) -> (r: bool)
        ensures
            r == (self@.dim_type == DimensionType::UnlimitedSize),
    {
        self.dim_type() == DimensionType::UnlimitedSize
    }

    /// Whether this is a fixed dimension.
    pub fn is_fixed(&self) -> (r: bool)
        ensures
            r == (self@.dim_type == DimensionType::FixedSize),
    {
        self.dim_type() == DimensionType::FixedSize
    }

    /// Accepts a valid name and refuses any other text.
    pub fn check_dim_name(dim_name: &str) -> (r: Result<(), InvalidDataSet>)
        ensures
            valid_name(dim_name@) ==> r is Ok,
            !valid_name(dim_name@) ==> r is Err && r.unwrap_err()@
                == InvalidDataSetView::InvalidName(dim_name@),
    {
        if is_valid_name(dim_name) {
            Ok(())
        } else {
            Err(InvalidDataSet::InvalidName(dim_name.to_owned()))
        }
    }
}

impl Clone for Dimension {
    fn clone(&self) -> (r: Self)
        ensures
            r@ == self@,
    {
        proof {
            use_type_invariant(self);
        }
        Dimension { name: self.name.clone(), size: self.size }
    }
}

impl PartialEq for Dimension {
    fn eq(&self, other: &Self) -> (r: bool) {
        self.name == other.name && self.size == other.size
    }
}

impl Eq for Dimension {

}

impl PartialEqSpecImpl for Dimension {
    open spec fn obeys_eq_spec() -> bool {
        true
    }

    open spec fn eq_spec(&self, other: &Self) -> bool {
        self@ == other@
    }
}

} // verus!
