//! The reader: the data set that bytes hold, and the data of its variables.

use crate::data_set::named::find_named;
use crate::data_set::{find_var, DataSet};
use crate::data_type::DataType;
use crate::data_vector::{elems_at, spec_coerce, DataVector, Values};
use crate::error::{CoercionError, ReadError, ReadErrorView};
use crate::header::parse::parse_header;
use crate::header::{Header, HeaderView};
use crate::layout::{
    big, big_add, big_le, big_mul, compute_sizes, compute_stride, VarSize, Version,
};
use vstd::prelude::*;

verus! {

/// Where record `r` of the variable at `v` starts, or the whole variable
/// where it is fixed, as the header has it.
pub open spec fn chunk_at(h: HeaderView, v: int, r: int) -> int {
    if h.data_set.is_record_var(v) {
        h.begins[v] + r * h.data_set.record_stride()
    } else {
        h.begins[v] as int
    }
}

/// The elements of record `r` of the variable at `v`, or of the whole
/// variable where it is fixed.
pub open spec fn read_chunk(s: Seq<u8>, h: HeaderView, v: int, r: int) -> Seq<int> {
    elems_at(h.data_set.vars[v].data_type, s, chunk_at(h, v, r), h.data_set.chunk_len(v))
}

/// The elements of the first `m` records of the variable at `v`.
pub open spec fn read_records(s: Seq<u8>, h: HeaderView, v: int, m: int) -> Seq<int>
    decreases m,
{
    if m <= 0 {
        Seq::empty()
    } else {
        read_records(s, h, v, m - 1) + read_chunk(s, h, v, m - 1)
    }
}

/// All the elements of the variable at `v`, in row-major order.
pub open spec fn read_all(s: Seq<u8>, h: HeaderView, v: int) -> Seq<int> {
    if h.data_set.is_record_var(v) {
        read_records(s, h, v, h.num_records as int)
    } else {
        read_chunk(s, h, v, 0)
    }
}

/// The elements of every variable lie within the first `len` bytes.
pub open spec fn in_bounds(len: nat, h: HeaderView) -> bool {
    forall|v: int, r: int| #[trigger]
        h.data_set.is_chunk(h.num_records, v, r) ==> chunk_at(h, v, r) + h.data_set.vsize_raw(v)
            <= len
}

/// The header of the file that the bytes are, or why they are not a file.
/// Bytes are a file where they open with a header and hold the elements of
/// every variable where the header says that they are.
pub open spec fn spec_open(s: Seq<u8>) -> Result<HeaderView, ReadErrorView> {
    match parse_header(s) {
        Err(e) => Err(e),
        Ok((h, _)) => if in_bounds(s.len(), h) {
            Ok(h)
        } else {
            Err(ReadErrorView::Truncated)
        },
    }
}

/// A file that was read: its bytes and what its header says.
#[derive(Debug)]
pub struct FileReader {
    bytes: Vec<u8>,
    header: Header,
    sizes: Vec<VarSize>,
    stride: Option<u64>,
}

/// Whether the elements of the variable at `v` lie within the first `len`
/// bytes.
pub open spec fn var_in_bounds(len: nat, h: HeaderView, v: int) -> bool {
    forall|r: int| #[trigger]
        h.data_set.is_chunk(h.num_records, v, r) ==> chunk_at(h, v, r) + h.data_set.vsize_raw(v)
            <= len
}

/// Tells whether the elements of the variable at `v` lie within the bytes.
fn check_var_in_bounds(
    len: usize,
    header: &Header,
    sizes: &Vec<VarSize>,
    stride: Option<u64>,
    v: usize,
) -> (r: bool)
    requires
        v < header@.data_set.vars.len(),
        header@.begins.len() == header@.data_set.vars.len(),
        sizes@.len() == header@.data_set.vars.len(),
        sizes@[v as int].describes(header@.data_set, v as int),
        stride == big(header@.data_set.record_stride()),
    ensures
        r == var_in_bounds(len as nat, header@, v as int),
{
    let ghost h = header@;
    let ghost ds = h.data_set;
    let ghost raw = ds.vsize_raw(v as int);
    let ghost st = ds.record_stride();
    let begin: u64 = header.begins[v];
    assert(h.begins[v as int] == begin);
    if sizes[v].is_record {
        let n: u64 = header.num_records as u64;
        if n == 0 {
            return true;
        }
        let span = big_mul(Some(n - 1), stride, Ghost((n - 1) as nat), Ghost(st));
        let start = big_add(Some(begin), span, Ghost(begin as nat), Ghost(((n - 1) * st) as nat));
        let end = big_add(start, sizes[v].raw, Ghost((begin + (n - 1) * st) as nat), Ghost(raw));
        let ok: bool = big_le(end, len as u64, Ghost((begin + (n - 1) * st + raw) as nat));
        proof {
            assert(ds.is_chunk(h.num_records, v as int, n - 1));
            if ok {
                assert forall|r: int| #[trigger]
                    ds.is_chunk(h.num_records, v as int, r) implies chunk_at(h, v as int, r) + raw
                    <= len by {
                    assert(r * st <= (n - 1) * st) by (nonlinear_arith)
                        requires
                            0 <= r <= n - 1,
                            0 <= st,
                    ;
                }
            }
        }
        ok
    } else {
        let end = big_add(Some(begin), sizes[v].raw, Ghost(begin as nat), Ghost(raw));
        let ok: bool = big_le(end, len as u64, Ghost(begin as nat + raw));
        proof {
            assert(ds.is_chunk(h.num_records, v as int, 0));
        }
        ok
    }
}

impl FileReader {
    #[verifier::type_invariant]
    spec fn wf(self) -> bool {
        &&& self.header@.data_set.valid()
        &&& self.header@.begins.len() == self.header@.data_set.vars.len()
        &&& self.sizes@.len() == self.header@.data_set.vars.len()
        &&& forall|v: int|
            0 <= v < self.sizes@.len() ==> (#[trigger] self.sizes@[v]).describes(
                self.header@.data_set,
                v,
            )
        &&& self.stride == big(self.header@.data_set.record_stride())
        &&& in_bounds(self.bytes@.len(), self.header@)
        &&& parse_header(self.bytes@) == Ok::<(HeaderView, int), ReadErrorView>(
            (self.header@, self.header.spec_len() as int),
        )
    }

    /// The bytes of the file.
    pub closed spec fn bytes(self) -> Seq<u8> {
        self.bytes@
    }

    /// What the header of the file says.
    pub closed spec fn header(self) -> HeaderView {
        self.header@
    }

    /// Reads bytes as a file.
    ///
    /// The bytes are a file where they open with a header and hold the
    /// elements of every variable where the header says that they are. The
    /// header is read at once, and so is it checked that the bytes hold the
    /// data: reading a variable then never fails for want of bytes.
    pub fn from_bytes(bytes: Vec<u8>) -> (r: Result<FileReader, ReadError>)
        ensures
            match spec_open(bytes@) {
                Ok(h) => r is Ok && r.unwrap().header() == h && r.unwrap().bytes() == bytes@,
                Err(e) => r is Err && r.unwrap_err()@ == e,
            },
    {
        let header = match Header::parse(bytes.as_slice()) {
            Err(e) => {
                return Err(e);
            },
            Ok(h) => h,
        };
        proof {
            crate::header::laws::lemma_parse_header_valid(bytes@);
        }
        let (sizes, records) = compute_sizes(&header.data_set);
        let stride = compute_stride(&sizes, records, Ghost(header@.data_set));
        let len: usize = bytes.len();
        let n: usize = sizes.len();
        let mut v: usize = 0;
        while v < n
            invariant
                v <= n,
                n == sizes@.len(),
                n == header@.data_set.vars.len(),
                header@.begins.len() == n,
                len == bytes@.len(),
                parse_header(bytes@) is Ok,
                parse_header(bytes@)->Ok_0.0 == header@,
                forall|j: int|
                    0 <= j < sizes@.len() ==> (#[trigger] sizes@[j]).describes(header@.data_set, j),
                stride == big(header@.data_set.record_stride()),
                forall|j: int| 0 <= j < v ==> var_in_bounds(len as nat, header@, j),
            decreases n - v,
        {
            assert(sizes@[v as int].describes(header@.data_set, v as int));
            if !check_var_in_bounds(len, &header, &sizes, stride, v) {
                proof {
                    assert(!in_bounds(len as nat, header@));
                }
                return Err(ReadError::Truncated);
            }
            v += 1;
        }
        proof {
            assert forall|j: int, r: int| #[trigger]
                header@.data_set.is_chunk(header@.num_records, j, r) implies chunk_at(header@, j, r)
                + header@.data_set.vsize_raw(j) <= len by {
                assert(var_in_bounds(len as nat, header@, j));
            }
        }
        Ok(FileReader { bytes, header, sizes, stride })
    }

    /// The data set that the file holds.
    pub fn data_set(&self) -> (r: &DataSet)
        ensures
            r@ == self.header().data_set,
    {
        &self.header.data_set
    }

    /// The version of the file.
    pub fn version(&self) -> (r: Version)
        ensures
            r == self.header().version,
    {
        self.header.version
    }

    /// The number of records of the file.
    pub fn num_records(&self) -> (r: usize)
        ensures
            r == self.header().num_records,
    {
        self.header.num_records as usize
    }

    /// The number of bytes of the header.
    pub fn header_len(&self) -> (r: usize)
        ensures
            parse_header(self.bytes()) is Ok,
            r == parse_header(self.bytes())->Ok_0.1,
    {
        proof {
            use_type_invariant(self);
        }
        self.header.len
    }

    /// Where the data of the variable of that name begins, if there is such
    /// a variable.
    pub fn begin_of(&self, name: &str) -> (r: Option<u64>)
        ensures
            match find_named(self.header().data_set.vars, name@) {
                Some(v) => r is Some && r.unwrap() == self.header().begins[v],
                None => r is None,
            },
    {
        proof {
            use_type_invariant(self);
        }
        match find_var(&self.header.data_set.vars, name) {
            Some(v) => Some(self.header.begins[v]),
            None => None,
        }
    }

    /// Reads record `r` of the variable at `v`, or the whole variable where
    /// it is fixed and `r` is zero.
    fn chunk(&self, v: usize, r: usize) -> (out: DataVector)
        requires
            self.header().data_set.is_chunk(self.header().num_records, v as int, r as int),
        ensures
            out@.data_type == self.header().data_set.vars[v as int].data_type,
            out@.elems == read_chunk(self.bytes(), self.header(), v as int, r as int),
    {
        proof {
            use_type_invariant(self);
        }
        let ghost h = self.header@;
        let ghost ds = h.data_set;
        let ghost st = ds.record_stride() as int;
        let ghost c = ds.chunk_len(v as int) as int;
        let ghost w = ds.vars[v as int].data_type.spec_size_of() as int;
        let len: usize = self.bytes.len();
        assert(self.sizes@[v as int].describes(ds, v as int));
        assert(chunk_at(h, v as int, r as int) + ds.vsize_raw(v as int) <= len);
        let var = self.header.data_set.var_at(v).unwrap();
        let begin: u64 = self.header.begins[v];
        assert(h.begins[v as int] == begin);
        assert(c <= c * w) by (nonlinear_arith)
            requires
                w >= 1,
                c >= 0,
        ;
        let pos: u64 = if self.sizes[v].is_record && r > 0 {
            assert(st <= r * st && 0 <= r * st) by (nonlinear_arith)
                requires
                    r >= 1,
                    st >= 0,
            ;
            let stride: u64 = self.stride.unwrap();
            begin + r as u64 * stride
        } else {
            assert(0 * st == 0);
            begin
        };
        assert(pos == chunk_at(h, v as int, r as int));
        let count: u64 = self.sizes[v].chunk_len.unwrap();
        DataVector::decode_in_bounds(var.data_type(), self.bytes.as_slice(), pos as usize, count as usize)
    }

    /// Reads all the elements of the variable at `v`.
    fn all(&self, v: usize) -> (out: DataVector)
        requires
            v < self.header().data_set.vars.len(),
        ensures
            out@.data_type == self.header().data_set.vars[v as int].data_type,
            out@.elems == read_all(self.bytes(), self.header(), v as int),
    {
        proof {
            use_type_invariant(self);
        }
        assert(self.sizes@[v as int].describes(self.header@.data_set, v as int));
        if !self.sizes[v].is_record {
            return self.chunk(v, 0);
        }
        let var = self.header.data_set.var_at(v).unwrap();
        let n: usize = self.header.num_records as usize;
        let mut out = DataVector::new(var.data_type());
        let mut r: usize = 0;
        while r < n
            invariant
                r <= n,
                n == self.header().num_records,
                v < self.header().data_set.vars.len(),
                self.header().data_set.is_record_var(v as int),
                out@.data_type == self.header().data_set.vars[v as int].data_type,
                out@.elems == read_records(self.bytes(), self.header(), v as int, r as int),
            decreases n - r,
        {
            let piece = self.chunk(v, r);
            out.append(&piece);
            r += 1;
        }
        out
    }

    /// Reads all the elements of the variable of that name, in row-major
    /// order.
    pub fn read_var(&self, name: &str) -> (r: Result<DataVector, ReadError>)
        ensures
            match find_named(self.header().data_set.vars, name@) {
                Some(v) => r is Ok && r.unwrap()@ == (Values {
                    data_type: self.header().data_set.vars[v].data_type,
                    elems: read_all(self.bytes(), self.header(), v),
                }),
                None => r is Err && r.unwrap_err()@ == ReadErrorView::VariableNotFound(name@),
            },
    {
        match find_var(&self.header.data_set.vars, name) {
            None => Err(ReadError::VariableNotFound(name.to_owned())),
            Some(v) => Ok(self.all(v)),
        }
    }

    /// Reads record `record` of the record variable of that name. A fixed
    /// variable is read whole as its record zero.
    pub fn read_record(&self, name: &str, record: usize) -> (r: Result<DataVector, ReadError>)
        ensures
            match find_named(self.header().data_set.vars, name@) {
                Some(v) => if self.header().data_set.is_chunk(
                    self.header().num_records,
                    v,
                    record as int,
                ) {
                    r is Ok && r.unwrap()@ == (Values {
                        data_type: self.header().data_set.vars[v].data_type,
                        elems: read_chunk(self.bytes(), self.header(), v, record as int),
                    })
                } else {
                    r is Err && r.unwrap_err()@ == ReadErrorView::RecordIndexOutOfBounds
                },
                None => r is Err && r.unwrap_err()@ == ReadErrorView::VariableNotFound(name@),
            },
    {
        proof {
            use_type_invariant(self);
        }
        match find_var(&self.header.data_set.vars, name) {
            None => Err(ReadError::VariableNotFound(name.to_owned())),
            Some(v) => {
                assert(self.sizes@[v as int].describes(self.header@.data_set, v as int));
                let in_range: bool = if self.sizes[v].is_record {
                    record < self.header.num_records as usize
                } else {
                    record == 0
                };
                if in_range {
                    Ok(self.chunk(v, record))
                } else {
                    Err(ReadError::RecordIndexOutOfBounds)
                }
            },
        }
    }

    /// Reads all the elements of the variable of that name, as values of the
    /// type `target`.
    ///
    /// Values of a signed integer type are converted to any signed integer
    /// type whose range holds them all. Values of the type asked for are
    /// handed out as they are.
    pub fn read_var_as(&self, name: &str, target: DataType) -> (r: Result<DataVector, ReadError>)
        ensures
            match find_named(self.header().data_set.vars, name@) {
                Some(v) => match spec_coerce(
                    Values {
                        data_type: self.header().data_set.vars[v].data_type,
                        elems: read_all(self.bytes(), self.header(), v),
                    },
                    target,
                ) {
                    Ok(values) => r is Ok && r.unwrap()@ == values,
                    Err(CoercionError::ValueOutOfRange) => r is Err && r.unwrap_err()@
                        == ReadErrorView::ValueOutOfRange,
                    Err(CoercionError::DataTypeMismatch) => r is Err && r.unwrap_err()@
                        == ReadErrorView::DataTypeMismatch(name@),
                },
                None => r is Err && r.unwrap_err()@ == ReadErrorView::VariableNotFound(name@),
            },
    {
        let values = match self.read_var(name) {
            Err(e) => {
                return Err(e);
            },
            Ok(values) => values,
        };
        match values.coerce(target) {
            Ok(converted) => Ok(converted),
            Err(CoercionError::ValueOutOfRange) => Err(ReadError::ValueOutOfRange),
            Err(CoercionError::DataTypeMismatch) => Err(ReadError::DataTypeMismatch(name.to_owned())),
        }
    }
}

} // verus!
