//! NetCDF-3 data sets and their two encodings, classic and 64-bit offset.
//!
//! The library holds the data model (dimensions, attributes, variables), the
//! byte-exact header codec, the layout planner, and a reader and a writer that
//! work on byte vectors.
pub mod data_type;
pub mod data_vector;
pub mod error;
pub mod header;
pub mod laws;
pub mod layout;
pub mod name_string;
pub mod planner;
pub mod primitive;
pub mod reader;
pub mod writer;
pub mod data_set;

pub use data_set::attribute::{Attribute, AttributeView};
pub use data_set::dimension::{Dimension, DimensionSize, DimensionType, DimensionView};
pub use data_set::model::DataSetView;
pub use data_set::variable::{Variable, VariableView};
pub use data_set::DataSet;
pub use data_type::DataType;
pub use data_vector::{DataVector, Values};
pub use error::{
    CoercionError, InvalidDataSet, InvalidDataSetView, ReadError, ReadErrorView, WriteError,
    WriteErrorView,
};
pub use header::{Header, HeaderView};
pub use layout::Version;
pub use name_string::{is_valid_name, is_valid_name_bytes};
pub use planner::{plan, Layout, LayoutView};
pub use reader::FileReader;
pub use writer::{VariableData, VariableDataView};
