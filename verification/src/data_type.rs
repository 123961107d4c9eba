//! The six scalar types of the format.
use crate::error::{ReadError, ReadErrorView};
use vstd::prelude::*;

verus! {

/// The type of the elements of a variable or of an attribute.
#[derive(Debug, Clone, Copy, PartialEq, Eq, Structural)]
pub enum DataType {
    /// Signed byte.
    I8,
    /// Unsigned byte, the type of text.
    U8,
    /// Signed 16-bit integer.
    I16,
    /// Signed 32-bit integer.
    I32,
    /// IEEE 754 single precision.
    F32,
    /// IEEE 754 double precision.
    F64,
}

impl DataType {
    /// The number of bytes that one element takes on disk.
    pub open spec fn spec_size_of(self) -> nat {
        match self {
            DataType::I8 => 1,
            DataType::U8 => 1,
            DataType::I16 => 2,
            DataType::I32 => 4,
            DataType::F32 => 4,
            DataType::F64 => 8,
        }
    }

    /// The tag that stands for the type in a header.
    pub open spec fn spec_code(self) -> nat {
        match self {
            DataType::I8 => 1,
            DataType::U8 => 2,
            DataType::I16 => 3,
            DataType::I32 => 4,
            DataType::F32 => 5,
            DataType::F64 => 6,
        }
    }

    /// The type that a tag stands for, if it stands for one.
    pub open spec fn spec_from_code(code: nat) -> Option<DataType> {
        if code == 1 {
            Some(DataType::I8)
        } else if code == 2 {
            Some(DataType::U8)
        } else if code == 3 {
            Some(DataType::I16)
        } else if code == 4 {
            Some(DataType::I32)
        } else if code == 5 {
            Some(DataType::F32)
        } else if code == 6 {
            Some(DataType::F64)
        } else {
            None
        }
    }

    /// Whether the elements are signed integers.
    pub open spec fn is_signed(self) -> bool {
        self == DataType::I8 || self == DataType::I16 || self == DataType::I32
    }

    /// The numbers that stand for an element of the type. A signed type
    /// admits its own range. The unsigned byte admits `0..=255`. A floating
    /// point type admits every bit pattern of its width, read as a natural
    /// number.
    pub open spec fn admits(self, v: int) -> bool {
        match self {
            DataType::I8 => -0x80 <= v < 0x80,
            DataType::U8 => 0 <= v < 0x100,
            DataType::I16 => -0x8000 <= v < 0x8000,
            DataType::I32 => -0x8000_0000 <= v < 0x8000_0000,
            DataType::F32 => 0 <= v < 0x1_0000_0000,
            DataType::F64 => 0 <= v < 0x1_0000_0000_0000_0000,
        }
    }

    /// The number of bytes that one element takes on disk.
    pub fn size_of(&self) -> (r: usize)
        ensures
            r == self.spec_size_of(),
    {
        match self {
            DataType::I8 => 1,
            DataType::U8 => 1,
            DataType::I16 => 2,
            DataType::I32 => 4,
            DataType::F32 => 4,
            DataType::F64 => 8,
        }
    }

    /// The tag that stands for the type in a header.
    pub fn code(&self) -> (r: u32)
        ensures
            r == self.spec_code(),
    {
        match self {
            DataType::I8 => 1,
            DataType::U8 => 2,
            DataType::I16 => 3,
            DataType::I32 => 4,
            DataType::F32 => 5,
            DataType::F64 => 6,
        }
    }

    /// The type that a tag stands for, if it stands for one.
    pub fn from_code(code: u32) -> (r: Option<DataType>)
        ensures
            r == DataType::spec_from_code(code as nat),
    {
        if code == 1 {
            Some(DataType::I8)
        } else if code == 2 {
            Some(DataType::U8)
        } else if code == 3 {
            Some(DataType::I16)
        } else if code == 4 {
            Some(DataType::I32)
        } else if code == 5 {
            Some(DataType::F32)
        } else if code == 6 {
            Some(DataType::F64)
        } else {
            None
        }
    }

    /// The type that a tag stands for, or the tag where it stands for none.
    pub fn try_from_code(code: u32) -> (r: Result<DataType, ReadError>)
        ensures
            match DataType::spec_from_code(code as nat) {
                Some(t) => r == Ok::<DataType, ReadError>(t),
                None => r is Err && r.unwrap_err()@ == ReadErrorView::InvalidTypeTag(code),
            },
    {
        match DataType::from_code(code) {
            Some(t) => Ok(t),
            None => Err(ReadError::InvalidTypeTag(code)),
        }
    }

    /// A type is found again from its tag, and only the six tags stand for a
    /// type.
    pub proof fn lemma_code_round_trip(self)
        ensures
            1 <= self.spec_code() <= 6,
            DataType::spec_from_code(self.spec_code()) == Some(self),
    {
    }

    /// A tag that stands for a type is the tag of that type.
    pub proof fn lemma_from_code_is_code(code: nat)
        ensures
            DataType::spec_from_code(code) matches Some(t) ==> t.spec_code() == code,
            DataType::spec_from_code(code) is Some <==> 1 <= code <= 6,
    {
    }
}

} // verus!
