//! The ways in which the library refuses: a change to a data set, bytes that
//! are no file, data that cannot be written.
use vstd::prelude::*;

verus! {

/// Why the data set refused a change. Each variant carries the name, or the
/// names, that the refusal is about.
#[derive(Debug, Clone, PartialEq, Eq)]
pub enum InvalidDataSet {
    /// The text is not a valid name.
    InvalidName(String),
    /// A dimension of that name exists already.
    DimensionAlreadyExists(String),
    /// The data set has an unlimited dimension already, of that name.
    UnlimitedAlreadyExists(String),
    /// A variable of that name exists already.
    VariableAlreadyExists(String),
    /// The owner has an attribute of that name already.
    AttributeAlreadyExists(String),
    /// No dimension of that name.
    DimensionNotFound(String),
    /// No variable of that name.
    VariableNotFound(String),
    /// The owner has no attribute of that name.
    AttributeNotFound(String),
    /// The dimension is part of the shape of these variables.
    DimensionInUse(Vec<String>),
    /// The shape of that variable holds the unlimited dimension elsewhere
    /// than in the first place.
    UnlimitedDimensionNotFirst(String),
    /// The shape of that variable holds the unlimited dimension twice or more.
    UnlimitedDimensionUsedMoreThanOnce(String),
}

/// What an [`InvalidDataSet`] says, with each name as a sequence of characters.
pub ghost enum InvalidDataSetView {
    InvalidName(Seq<char>),
    DimensionAlreadyExists(Seq<char>),
    UnlimitedAlreadyExists(Seq<char>),
    VariableAlreadyExists(Seq<char>),
    AttributeAlreadyExists(Seq<char>),
    DimensionNotFound(Seq<char>),
    VariableNotFound(Seq<char>),
    AttributeNotFound(Seq<char>),
    DimensionInUse(Seq<Seq<char>>),
    UnlimitedDimensionNotFirst(Seq<char>),
    UnlimitedDimensionUsedMoreThanOnce(Seq<char>),
}

impl View for InvalidDataSet {
    type V = InvalidDataSetView;

    open spec fn view(&self) -> InvalidDataSetView {
        match self {
            InvalidDataSet::InvalidName(s) => InvalidDataSetView::InvalidName(s@),
            InvalidDataSet::DimensionAlreadyExists(s) => InvalidDataSetView::DimensionAlreadyExists(s@),
            InvalidDataSet::UnlimitedAlreadyExists(s) => InvalidDataSetView::UnlimitedAlreadyExists(s@),
            InvalidDataSet::VariableAlreadyExists(s) => InvalidDataSetView::VariableAlreadyExists(s@),
            InvalidDataSet::AttributeAlreadyExists(s) => InvalidDataSetView::AttributeAlreadyExists(s@),
            InvalidDataSet::DimensionNotFound(s) => InvalidDataSetView::DimensionNotFound(s@),
            InvalidDataSet::VariableNotFound(s) => InvalidDataSetView::VariableNotFound(s@),
            InvalidDataSet::AttributeNotFound(s) => InvalidDataSetView::AttributeNotFound(s@),
            InvalidDataSet::DimensionInUse(names) => InvalidDataSetView::DimensionInUse(
                Seq::new(names@.len(), |i: int| names@[i]@),
            ),
            InvalidDataSet::UnlimitedDimensionNotFirst(s) => InvalidDataSetView::UnlimitedDimensionNotFirst(s@),
            InvalidDataSet::UnlimitedDimensionUsedMoreThanOnce(s) => InvalidDataSetView::UnlimitedDimensionUsedMoreThanOnce(s@),
        }
    }
}

/// Why a conversion of values to another type was refused.
#[derive(Debug, Clone, Copy, PartialEq, Eq, Structural)]
pub enum CoercionError {
    /// Some value is outside the range of the type asked for.
    ValueOutOfRange,
    /// The two types are not both signed integer types.
    DataTypeMismatch,
}

/// Why bytes could not be read as a file, or a variable not be read from it.
#[derive(Debug, Clone, PartialEq, Eq)]
pub enum ReadError {
    /// The first three bytes are not `CDF`.
    InvalidMagic,
    /// The fourth byte is neither 1 nor 2. It is carried here.
    InvalidVersion(u8),
    /// A tag that should stand for a type or open a list stands for none.
    InvalidTypeTag(u32),
    /// The header ends before it is complete.
    UnexpectedEndOfInput,
    /// The data of a variable reaches beyond the end of the bytes.
    Truncated,
    /// The bytes of a name are not UTF-8 or break the rule on names.
    InvalidName(Vec<u8>),
    /// A shape holds an index that is not the index of a dimension.
    DimensionNotFound(u32),
    /// The header describes what no data set can hold.
    InvalidDataSet(InvalidDataSet),
    /// No variable of that name.
    VariableNotFound(String),
    /// The variable of that name cannot be read as the type asked for.
    DataTypeMismatch(String),
    /// Some value is outside the range of the type asked for.
    ValueOutOfRange,
    /// The record asked for is not among the records stored.
    RecordIndexOutOfBounds,
}

/// What a [`ReadError`] says, over sequences.
pub ghost enum ReadErrorView {
    InvalidMagic,
    InvalidVersion(u8),
    InvalidTypeTag(u32),
    UnexpectedEndOfInput,
    Truncated,
    InvalidName(Seq<u8>),
    DimensionNotFound(u32),
    InvalidDataSet(InvalidDataSetView),
    VariableNotFound(Seq<char>),
    DataTypeMismatch(Seq<char>),
    ValueOutOfRange,
    RecordIndexOutOfBounds,
}

impl View for ReadError {
    type V = ReadErrorView;

    open spec fn view(&self) -> ReadErrorView {
        match self {
            ReadError::InvalidMagic => ReadErrorView::InvalidMagic,
            ReadError::InvalidVersion(b) => ReadErrorView::InvalidVersion(*b),
            ReadError::InvalidTypeTag(t) => ReadErrorView::InvalidTypeTag(*t),
            ReadError::UnexpectedEndOfInput => ReadErrorView::UnexpectedEndOfInput,
            ReadError::Truncated => ReadErrorView::Truncated,
            ReadError::InvalidName(b) => ReadErrorView::InvalidName(b@),
            ReadError::DimensionNotFound(id) => ReadErrorView::DimensionNotFound(*id),
            ReadError::InvalidDataSet(e) => ReadErrorView::InvalidDataSet(e@),
            ReadError::VariableNotFound(s) => ReadErrorView::VariableNotFound(s@),
            ReadError::DataTypeMismatch(s) => ReadErrorView::DataTypeMismatch(s@),
            ReadError::ValueOutOfRange => ReadErrorView::ValueOutOfRange,
            ReadError::RecordIndexOutOfBounds => ReadErrorView::RecordIndexOutOfBounds,
        }
    }
}

/// Why a data set and its data could not be written.
#[derive(Debug, Clone, PartialEq, Eq)]
pub enum WriteError {
    /// No data was supplied for the variable of that name.
    VariableNotFound(String),
    /// The data supplied for that variable is of another type.
    DataTypeMismatch(String),
    /// The data supplied for that fixed variable has not the length expected.
    /// The variable, the length expected, the length supplied.
    DataLengthMismatch(String, u64, u64),
    /// The data supplied for that record variable does not hold the number of
    /// records that the first record variable holds. The variable, the length
    /// expected, the length supplied.
    RecordLengthMismatch(String, u64, u64),
    /// The classic format was asked for and cannot hold the offsets.
    OffsetOverflow,
    /// A count, a size or an offset is beyond what either format can hold.
    FormatLimitExceeded,
}

/// What a [`WriteError`] says, over sequences.
pub ghost enum WriteErrorView {
    VariableNotFound(Seq<char>),
    DataTypeMismatch(Seq<char>),
    DataLengthMismatch(Seq<char>, nat, nat),
    RecordLengthMismatch(Seq<char>, nat, nat),
    OffsetOverflow,
    FormatLimitExceeded,
}

impl View for WriteError {
    type V = WriteErrorView;

    open spec fn view(&self) -> WriteErrorView {
        match self {
            WriteError::VariableNotFound(s) => WriteErrorView::VariableNotFound(s@),
            WriteError::DataTypeMismatch(s) => WriteErrorView::DataTypeMismatch(s@),
            WriteError::DataLengthMismatch(s, e, g) => WriteErrorView::DataLengthMismatch(
                s@,
                *e as nat,
                *g as nat,
            ),
            WriteError::RecordLengthMismatch(s, e, g) => WriteErrorView::RecordLengthMismatch(
                s@,
                *e as nat,
                *g as nat,
            ),
            WriteError::OffsetOverflow => WriteErrorView::OffsetOverflow,
            WriteError::FormatLimitExceeded => WriteErrorView::FormatLimitExceeded,
        }
    }
}

} // verus!
