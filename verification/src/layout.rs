//! Where the data of each variable stands in a file.
//!
//! Fixed variables come first, in the order of the data set, each padded to
//! a multiple of four bytes. The records follow, one after the other; a
//! record holds one slot for each record variable, in the order of the data
//! set.
use crate::data_set::dimension::DimensionView;
use crate::data_set::model::{var_valid, DataSetView};
use crate::data_set::DataSet;
use crate::error::WriteErrorView;
use crate::primitive::{lemma_round_up_4, round_up_4};
use vstd::prelude::*;

verus! {

/// The two encodings of the format. They differ in the width of the offsets.
#[derive(Debug, Clone, Copy, PartialEq, Eq, Structural)]
pub enum Version {
    /// Offsets of four bytes.
    Classic,
    /// Offsets of eight bytes.
    Offset64Bit,
}

impl Version {
    /// The number of bytes of an offset.
    pub open spec fn spec_offset_width(self) -> nat {
        match self {
            Version::Classic => 4,
            Version::Offset64Bit => 8,
        }
    }

    /// The fourth byte of a file.
    pub open spec fn spec_code(self) -> u8 {
        match self {
            Version::Classic => 1,
            Version::Offset64Bit => 2,
        }
    }

    /// The number of bytes of an offset.
    pub fn offset_width(&self) -> (r: usize)
        ensures
            r == self.spec_offset_width(),
    {
        match self {
            Version::Classic => 4,
            Version::Offset64Bit => 8,
        }
    }

    /// The fourth byte of a file.
    pub fn code(&self) -> (r: u8)
        ensures
            r == self.spec_code(),
    {
        match self {
            Version::Classic => 1,
            Version::Offset64Bit => 2,
        }
    }
}

/// The greatest number that a four-byte field of a header holds.
pub const FIELD_MAX: u64 = 0x7fff_ffff;

/// The greatest offset that the 64-bit offset format holds.
pub const OFFSET_MAX: u64 = 0x7fff_ffff_ffff_ffff;

/// What a dimension contributes to the number of elements of one record, or
/// of a whole fixed variable: the unlimited dimension counts as one.
pub open spec fn dim_extent(d: DimensionView) -> nat {
    if d.is_unlimited() {
        1
    } else {
        d.size
    }
}

/// The number of elements of one record of a record variable, or of a whole
/// fixed variable, of that shape.
pub open spec fn chunk_len(dims: Seq<DimensionView>, ids: Seq<int>) -> nat
    decreases ids.len(),
{
    if ids.len() == 0 {
        1
    } else {
        chunk_len(dims, ids.drop_last()) * dim_extent(dims[ids.last()])
    }
}

/// The number of record variables among the first `n` variables.
pub open spec fn count_record_vars(ds: DataSetView, n: int) -> nat
    decreases n,
{
    if n <= 0 {
        0
    } else {
        count_record_vars(ds, n - 1) + if ds.is_record_var(n - 1) {
            1nat
        } else {
            0nat
        }
    }
}

/// The bytes of the fixed variables among the first `n` variables.
pub open spec fn fixed_before(ds: DataSetView, n: int) -> nat
    decreases n,
{
    if n <= 0 {
        0
    } else {
        fixed_before(ds, n - 1) + if ds.is_record_var(n - 1) {
            0nat
        } else {
            ds.slot(n - 1)
        }
    }
}

/// The bytes that the record variables among the first `n` variables take in
/// one record.
pub open spec fn record_before(ds: DataSetView, n: int) -> nat
    decreases n,
{
    if n <= 0 {
        0
    } else {
        record_before(ds, n - 1) + if ds.is_record_var(n - 1) {
            ds.slot(n - 1)
        } else {
            0nat
        }
    }
}

impl DataSetView {
    /// The number of elements of one record of the variable at `v`, or of
    /// the whole variable where it is fixed.
    pub open spec fn chunk_len(self, v: int) -> nat {
        chunk_len(self.dims, self.vars[v].dim_ids)
    }

    /// The bytes of one record of the variable at `v`, or of the whole
    /// variable where it is fixed, without padding.
    pub open spec fn vsize_raw(self, v: int) -> nat {
        self.chunk_len(v) * self.vars[v].data_type.spec_size_of()
    }

    /// The size that the header gives for the variable at `v`: `vsize_raw`
    /// padded to a multiple of four.
    pub open spec fn vsize(self, v: int) -> nat {
        round_up_4(self.vsize_raw(v))
    }

    /// The number of record variables.
    pub open spec fn num_record_vars(self) -> nat {
        count_record_vars(self, self.vars.len() as int)
    }

    /// The bytes that the variable at `v` takes in the file, or in each
    /// record where it is a record variable. A record variable that is the
    /// only one is not padded.
    pub open spec fn slot(self, v: int) -> nat {
        if self.is_record_var(v) && self.num_record_vars() == 1 {
            self.vsize_raw(v)
        } else {
            self.vsize(v)
        }
    }

    /// The bytes of all the fixed variables.
    pub open spec fn fixed_total(self) -> nat {
        fixed_before(self, self.vars.len() as int)
    }

    /// The bytes of one record.
    pub open spec fn record_stride(self) -> nat {
        record_before(self, self.vars.len() as int)
    }

    /// Where the data of the variable at `v` begins, in a file whose header
    /// takes `header_len` bytes.
    pub open spec fn begin_of(self, header_len: nat, v: int) -> nat {
        if self.is_record_var(v) {
            header_len + self.fixed_total() + record_before(self, v)
        } else {
            header_len + fixed_before(self, v)
        }
    }

    /// The length of the file.
    pub open spec fn file_len(self, header_len: nat, num_records: nat) -> nat {
        header_len + self.fixed_total() + num_records * self.record_stride()
    }

    /// Whether `(v, r)` names a run of bytes of the file: record `r` of the
    /// record variable at `v`, or, with `r` zero, the fixed variable at `v`.
    pub open spec fn is_chunk(self, num_records: nat, v: int, r: int) -> bool {
        &&& 0 <= v < self.vars.len()
        &&& if self.is_record_var(v) {
            0 <= r < num_records
        } else {
            r == 0
        }
    }

    /// Where the run of bytes `(v, r)` starts.
    pub open spec fn chunk_start(self, header_len: nat, v: int, r: int) -> int {
        if self.is_record_var(v) {
            self.begin_of(header_len, v) + r * self.record_stride()
        } else {
            self.begin_of(header_len, v) as int
        }
    }

    /// Where the run of bytes `(v, r)` ends.
    pub open spec fn chunk_end(self, header_len: nat, v: int, r: int) -> int {
        self.chunk_start(header_len, v, r) + self.slot(v)
    }

    /// All the bytes that the variable at `v` takes in the file.
    pub open spec fn total_size(self, num_records: nat, v: int) -> nat {
        if self.is_record_var(v) {
            num_records * self.slot(v)
        } else {
            self.slot(v)
        }
    }

    /// Every size fits the four-byte field that the header has for it.
    pub open spec fn sizes_fit(self) -> bool {
        forall|v: int| 0 <= v < self.vars.len() ==> #[trigger] self.vsize(v) <= FIELD_MAX
    }

    /// The classic format can hold the file: no offset and no variable is
    /// beyond `2^31 - 1`.
    pub open spec fn fits_classic(self, header_len: nat, num_records: nat) -> bool {
        forall|v: int|
            0 <= v < self.vars.len() ==> #[trigger] self.begin_of(header_len, v) <= FIELD_MAX
                && self.total_size(num_records, v) <= FIELD_MAX
    }

    /// The 64-bit offset format can hold the offsets.
    pub open spec fn fits_offset64(self, header_len: nat) -> bool {
        forall|v: int|
            0 <= v < self.vars.len() ==> #[trigger] self.begin_of(header_len, v) <= OFFSET_MAX
    }

    /// The version in which the file is written, for a request that is a
    /// version or leaves the choice open, or why it cannot be written.
    ///
    /// With the choice left open the classic format is taken wherever it can
    /// hold the file.
    pub open spec fn choose_version(
        self,
        num_records: nat,
        classic_header_len: nat,
        offset64_header_len: nat,
        request: Option<Version>,
    ) -> Result<Version, WriteErrorView> {
        if !self.sizes_fit() {
            Err(WriteErrorView::FormatLimitExceeded)
        } else if request != Some(Version::Offset64Bit) && self.fits_classic(
            classic_header_len,
            num_records,
        ) {
            Ok(Version::Classic)
        } else if request == Some(Version::Classic) {
            Err(WriteErrorView::OffsetOverflow)
        } else if self.fits_offset64(offset64_header_len) {
            Ok(Version::Offset64Bit)
        } else {
            Err(WriteErrorView::FormatLimitExceeded)
        }
    }
}

pub proof fn lemma_before_step(ds: DataSetView, n: int)
    requires
        0 <= n,
    ensures
        fixed_before(ds, n + 1) == fixed_before(ds, n) + if ds.is_record_var(n) {
            0nat
        } else {
            ds.slot(n)
        },
        record_before(ds, n + 1) == record_before(ds, n) + if ds.is_record_var(n) {
            ds.slot(n)
        } else {
            0nat
        },
        count_record_vars(ds, n + 1) == count_record_vars(ds, n) + if ds.is_record_var(n) {
            1nat
        } else {
            0nat
        },
{
}

pub proof fn lemma_before_monotone(ds: DataSetView, a: int, b: int)
    requires
        0 <= a <= b,
    ensures
        fixed_before(ds, a) <= fixed_before(ds, b),
        record_before(ds, a) <= record_before(ds, b),
        count_record_vars(ds, a) <= count_record_vars(ds, b),
    decreases b - a,
{
    if a < b {
        lemma_before_monotone(ds, a, b - 1);
    }
}

/// Every run of bytes of a variable lies between the end of the header and
/// the end of the file.
pub proof fn lemma_chunk_within(ds: DataSetView, header_len: nat, num_records: nat, v: int, r: int)
    requires
        ds.is_chunk(num_records, v, r),
    ensures
        header_len <= ds.chunk_start(header_len, v, r),
        ds.chunk_start(header_len, v, r) <= ds.chunk_end(header_len, v, r),
        ds.chunk_end(header_len, v, r) <= ds.file_len(header_len, num_records),
{
    let n = ds.vars.len() as int;
    lemma_before_step(ds, v);
    lemma_before_monotone(ds, v + 1, n);
    if ds.is_record_var(v) {
        let stride = ds.record_stride() as int;
        assert(0 <= r * stride && (r + 1) * stride <= num_records * stride && (r + 1) * stride == r
            * stride + stride) by (nonlinear_arith)
            requires
                0 <= r < num_records,
                0 <= stride,
        ;
    } else {
        assert(0 <= num_records * ds.record_stride()) by (nonlinear_arith);
    }
}

/// The runs of bytes of two variables, or of two records of one variable,
/// have no byte in common.
pub proof fn lemma_chunks_disjoint(
    ds: DataSetView,
    header_len: nat,
    num_records: nat,
    v1: int,
    r1: int,
    v2: int,
    r2: int,
)
    requires
        ds.is_chunk(num_records, v1, r1),
        ds.is_chunk(num_records, v2, r2),
        v1 != v2 || r1 != r2,
    ensures
        ds.chunk_end(header_len, v1, r1) <= ds.chunk_start(header_len, v2, r2) || ds.chunk_end(
            header_len,
            v2,
            r2,
        ) <= ds.chunk_start(header_len, v1, r1),
{
    let n = ds.vars.len() as int;
    let stride = ds.record_stride() as int;
    lemma_before_step(ds, v1);
    lemma_before_step(ds, v2);
    lemma_before_monotone(ds, v1 + 1, n);
    lemma_before_monotone(ds, v2 + 1, n);
    if v1 < v2 {
        lemma_before_monotone(ds, v1 + 1, v2);
    }
    if v2 < v1 {
        lemma_before_monotone(ds, v2 + 1, v1);
    }
    if ds.is_record_var(v1) && ds.is_record_var(v2) {
        if r1 < r2 {
            assert((r1 + 1) * stride <= r2 * stride && (r1 + 1) * stride == r1 * stride + stride)
                by (nonlinear_arith)
                requires
                    r1 < r2,
                    0 <= stride,
            ;
        } else if r2 < r1 {
            assert((r2 + 1) * stride <= r1 * stride && (r2 + 1) * stride == r2 * stride + stride)
                by (nonlinear_arith)
                requires
                    r2 < r1,
                    0 <= stride,
            ;
        }
    } else if ds.is_record_var(v1) {
        assert(0 <= r1 * stride) by (nonlinear_arith)
            requires
                0 <= r1,
                0 <= stride,
        ;
    } else if ds.is_record_var(v2) {
        assert(0 <= r2 * stride) by (nonlinear_arith)
            requires
                0 <= r2,
                0 <= stride,
        ;
    }
}

/// A number, where it fits in 64 bits.
pub open spec fn big(x: nat) -> Option<u64> {
    if x <= u64::MAX {
        Some(x as u64)
    } else {
        None
    }
}

/// The product of two numbers, where it fits in 64 bits.
pub(crate) fn big_mul(a: Option<u64>, b: Option<u64>, Ghost(x): Ghost<nat>, Ghost(y): Ghost<nat>) -> (r:
    Option<u64>)
    requires
        a == big(x),
        b == big(y),
    ensures
        r == big(x * y),
{
    match (a, b) {
        (Some(p), Some(q)) => {
            assert(p * q == x * y);
            p.checked_mul(q)
        },
        (Some(p), None) => {
            if p == 0 {
                assert(x * y == 0) by (nonlinear_arith)
                    requires
                        x == 0,
                ;
                Some(0)
            } else {
                assert(x * y >= y) by (nonlinear_arith)
                    requires
                        x >= 1,
                ;
                None
            }
        },
        (None, Some(q)) => {
            if q == 0 {
                assert(x * y == 0) by (nonlinear_arith)
                    requires
                        y == 0,
                ;
                Some(0)
            } else {
                assert(x * y >= x) by (nonlinear_arith)
                    requires
                        y >= 1,
                ;
                None
            }
        },
        (None, None) => {
            assert(x * y >= x) by (nonlinear_arith)
                requires
                    y >= 1,
            ;
            None
        },
    }
}

/// The sum of two numbers, where it fits in 64 bits.
pub(crate) fn big_add(a: Option<u64>, b: Option<u64>, Ghost(x): Ghost<nat>, Ghost(y): Ghost<nat>) -> (r:
    Option<u64>)
    requires
        a == big(x),
        b == big(y),
    ensures
        r == big(x + y),
{
    match (a, b) {
        (Some(p), Some(q)) => p.checked_add(q),
        _ => None,
    }
}

/// A number rounded up to a multiple of four, where it fits in 64 bits.
pub(crate) fn big_round_up_4(a: Option<u64>, Ghost(x): Ghost<nat>) -> (r: Option<u64>)
    requires
        a == big(x),
    ensures
        r == big(round_up_4(x)),
{
    proof {
        lemma_round_up_4(x);
    }
    match a {
        Some(p) => {
            let pad: u64 = (4 - p % 4) % 4;
            p.checked_add(pad)
        },
        None => None,
    }
}

/// Whether a number is at most `limit`.
pub(crate) fn big_le(a: Option<u64>, limit: u64, Ghost(x): Ghost<nat>) -> (r: bool)
    requires
        a == big(x),
    ensures
        r == (x <= limit),
{
    match a {
        Some(p) => p <= limit,
        None => false,
    }
}

/// What the planner computes of one variable.
#[derive(Debug)]
pub struct VarSize {
    pub(crate) is_record: bool,
    pub(crate) chunk_len: Option<u64>,
    pub(crate) raw: Option<u64>,
    pub(crate) padded: Option<u64>,
}

impl VarSize {
    /// Whether these are the sizes of the variable at `v`.
    pub open(crate) spec fn describes(self, ds: DataSetView, v: int) -> bool {
        &&& self.is_record == ds.is_record_var(v)
        &&& self.chunk_len == big(ds.chunk_len(v))
        &&& self.raw == big(ds.vsize_raw(v))
        &&& self.padded == big(ds.vsize(v))
    }

    /// The bytes that the variable takes in the file, or in each record,
    /// where there are `num_record_vars` record variables.
    pub(crate) fn slot(&self, num_record_vars: usize, Ghost(ds): Ghost<DataSetView>, Ghost(v): Ghost<int>) -> (r:
        Option<u64>)
        requires
            self.describes(ds, v),
            num_record_vars == ds.num_record_vars(),
        ensures
            r == big(ds.slot(v)),
    {
        if self.is_record && num_record_vars == 1 {
            self.raw
        } else {
            self.padded
        }
    }
}

/// The sizes of every variable, and the number of record variables.
pub(crate) fn compute_sizes(ds: &DataSet) -> (r: (Vec<VarSize>, usize))
    ensures
        r.0@.len() == ds@.vars.len(),
        forall|v: int| 0 <= v < r.0@.len() ==> (#[trigger] r.0@[v]).describes(ds@, v),
        r.1 == ds@.num_record_vars(),
{
    proof {
        use_type_invariant(ds);
    }
    let n: usize = ds.vars.len();
    let mut sizes: Vec<VarSize> = Vec::new();
    let mut records: usize = 0;
    let mut v: usize = 0;
    while v < n
        invariant
            v <= n,
            n == ds.vars@.len(),
            ds@.valid(),
            sizes@.len() == v,
            forall|j: int| 0 <= j < v ==> (#[trigger] sizes@[j]).describes(ds@, j),
            records == count_record_vars(ds@, v as int),
            records <= v,
        decreases n - v,
    {
        let var = &ds.vars[v];
        assert(var_valid(ds@.dims, ds@.vars[v as int]));
        let ghost ids = ds@.vars[v as int].dim_ids;
        let is_record: bool = ds.is_record_at(v);
        let m: usize = var.dim_ids.len();
        let mut chunk: Option<u64> = Some(1);
        let mut k: usize = 0;
        assert(ids.take(0) =~= Seq::empty());
        while k < m
            invariant
                k <= m,
                m == ids.len(),
                v < n,
                n == ds.vars@.len(),
                var == &ds.vars@[v as int],
                ids == ds@.vars[v as int].dim_ids,
                var_valid(ds@.dims, ds@.vars[v as int]),
                chunk == big(chunk_len(ds@.dims, ids.take(k as int))),
            decreases m - k,
        {
            let id: usize = var.dim_ids[k];
            assert(ids[k as int] == id as int);
            let dim = &ds.dims[id];
            let extent: u64 = if dim.is_unlimited() {
                1
            } else {
                dim.size() as u64
            };
            assert(extent == dim_extent(ds@.dims[id as int]));
            proof {
                assert(ids.take(k + 1).drop_last() =~= ids.take(k as int));
                assert(ids.take(k + 1).last() == ids[k as int]);
            }
            chunk =
            big_mul(
                chunk,
                Some(extent),
                Ghost(chunk_len(ds@.dims, ids.take(k as int))),
                Ghost(extent as nat),
            );
            k += 1;
        }
        assert(ids.take(m as int) =~= ids);
        let width: u64 = var.data_type.size_of() as u64;
        let raw = big_mul(chunk, Some(width), Ghost(ds@.chunk_len(v as int)), Ghost(width as nat));
        let padded = big_round_up_4(raw, Ghost(ds@.vsize_raw(v as int)));
        sizes.push(VarSize { is_record, chunk_len: chunk, raw, padded });
        if is_record {
            records += 1;
        }
        v += 1;
    }
    (sizes, records)
}

/// Where the data of each variable begins, in a file whose header takes
/// `header_len` bytes.
pub(crate) fn plan_begins(ds: &DataSet, sizes: &Vec<VarSize>, records: usize, header_len: usize) -> (r:
    Vec<Option<u64>>)
    requires
        sizes@.len() == ds@.vars.len(),
        forall|v: int| 0 <= v < sizes@.len() ==> (#[trigger] sizes@[v]).describes(ds@, v),
        records == ds@.num_record_vars(),
    ensures
        r@.len() == ds@.vars.len(),
        forall|v: int|
            0 <= v < r@.len() ==> #[trigger] r@[v] == big(ds@.begin_of(header_len as nat, v)),
{
    let n: usize = sizes.len();
    let mut fixed: Option<u64> = Some(0);
    let mut v: usize = 0;
    while v < n
        invariant
            v <= n,
            n == sizes@.len(),
            n == ds@.vars.len(),
            forall|j: int| 0 <= j < sizes@.len() ==> (#[trigger] sizes@[j]).describes(ds@, j),
            records == ds@.num_record_vars(),
            fixed == big(fixed_before(ds@, v as int)),
        decreases n - v,
    {
        proof {
            lemma_before_step(ds@, v as int);
        }
        if !sizes[v].is_record {
            let slot = sizes[v].slot(records, Ghost(ds@), Ghost(v as int));
            fixed =
            big_add(fixed, slot, Ghost(fixed_before(ds@, v as int)), Ghost(ds@.slot(v as int)));
        }
        v += 1;
    }
    let mut after_fixed: Option<u64> = Some(header_len as u64);
    let mut after_records: Option<u64> = big_add(
        after_fixed,
        fixed,
        Ghost(header_len as nat),
        Ghost(ds@.fixed_total()),
    );
    let mut begins: Vec<Option<u64>> = Vec::new();
    let mut v: usize = 0;
    while v < n
        invariant
            v <= n,
            n == sizes@.len(),
            n == ds@.vars.len(),
            forall|j: int| 0 <= j < sizes@.len() ==> (#[trigger] sizes@[j]).describes(ds@, j),
            records == ds@.num_record_vars(),
            after_fixed == big(header_len as nat + fixed_before(ds@, v as int)),
            after_records == big(
                header_len as nat + ds@.fixed_total() + record_before(ds@, v as int),
            ),
            begins@.len() == v,
            forall|j: int|
                0 <= j < v ==> #[trigger] begins@[j] == big(ds@.begin_of(header_len as nat, j)),
        decreases n - v,
    {
        proof {
            lemma_before_step(ds@, v as int);
        }
        let slot = sizes[v].slot(records, Ghost(ds@), Ghost(v as int));
        if sizes[v].is_record {
            begins.push(after_records);
            after_records =
            big_add(
                after_records,
                slot,
                Ghost(header_len as nat + ds@.fixed_total() + record_before(ds@, v as int)),
                Ghost(ds@.slot(v as int)),
            );
        } else {
            begins.push(after_fixed);
            after_fixed =
            big_add(
                after_fixed,
                slot,
                Ghost(header_len as nat + fixed_before(ds@, v as int)),
                Ghost(ds@.slot(v as int)),
            );
        }
        v += 1;
    }
    begins
}

/// Whether every size fits its field.
pub(crate) fn check_sizes_fit(ds: &DataSet, sizes: &Vec<VarSize>) -> (r: bool)
    requires
        sizes@.len() == ds@.vars.len(),
        forall|v: int| 0 <= v < sizes@.len() ==> (#[trigger] sizes@[v]).describes(ds@, v),
    ensures
        r == ds@.sizes_fit(),
{
    let n: usize = sizes.len();
    let mut v: usize = 0;
    while v < n
        invariant
            v <= n,
            n == sizes@.len(),
            n == ds@.vars.len(),
            forall|j: int| 0 <= j < sizes@.len() ==> (#[trigger] sizes@[j]).describes(ds@, j),
            forall|j: int| 0 <= j < v ==> #[trigger] ds@.vsize(j) <= FIELD_MAX,
        decreases n - v,
    {
        assert(sizes@[v as int].describes(ds@, v as int));
        if !big_le(sizes[v].padded, FIELD_MAX, Ghost(ds@.vsize(v as int))) {
            return false;
        }
        v += 1;
    }
    true
}

/// Whether the classic format can hold the file.
pub(crate) fn check_classic(
    ds: &DataSet,
    sizes: &Vec<VarSize>,
    records: usize,
    begins: &Vec<Option<u64>>,
    num_records: u64,
    Ghost(header_len): Ghost<nat>,
) -> (r: bool)
    requires
        sizes@.len() == ds@.vars.len(),
        forall|v: int| 0 <= v < sizes@.len() ==> (#[trigger] sizes@[v]).describes(ds@, v),
        records == ds@.num_record_vars(),
        begins@.len() == ds@.vars.len(),
        forall|v: int|
            0 <= v < begins@.len() ==> #[trigger] begins@[v] == big(ds@.begin_of(header_len, v)),
    ensures
        r == ds@.fits_classic(header_len, num_records as nat),
{
    let n: usize = sizes.len();
    let mut v: usize = 0;
    while v < n
        invariant
            v <= n,
            n == sizes@.len(),
            n == ds@.vars.len(),
            forall|j: int| 0 <= j < sizes@.len() ==> (#[trigger] sizes@[j]).describes(ds@, j),
            records == ds@.num_record_vars(),
            begins@.len() == n,
            forall|j: int|
                0 <= j < begins@.len() ==> #[trigger] begins@[j] == big(
                    ds@.begin_of(header_len, j),
                ),
            forall|j: int|
                0 <= j < v ==> #[trigger] ds@.begin_of(header_len, j) <= FIELD_MAX
                    && ds@.total_size(num_records as nat, j) <= FIELD_MAX,
        decreases n - v,
    {
        assert(sizes@[v as int].describes(ds@, v as int));
        assert(begins@[v as int] == big(ds@.begin_of(header_len, v as int)));
        let slot = sizes[v].slot(records, Ghost(ds@), Ghost(v as int));
        let total = if sizes[v].is_record {
            big_mul(Some(num_records), slot, Ghost(num_records as nat), Ghost(ds@.slot(v as int)))
        } else {
            slot
        };
        if !big_le(begins[v], FIELD_MAX, Ghost(ds@.begin_of(header_len, v as int))) || !big_le(
            total,
            FIELD_MAX,
            Ghost(ds@.total_size(num_records as nat, v as int)),
        ) {
            return false;
        }
        v += 1;
    }
    true
}

/// Whether the 64-bit offset format can hold the offsets.
pub(crate) fn check_offset64(ds: &DataSet, begins: &Vec<Option<u64>>, Ghost(header_len): Ghost<nat>) -> (r:
    bool)
    requires
        begins@.len() == ds@.vars.len(),
        forall|v: int|
            0 <= v < begins@.len() ==> #[trigger] begins@[v] == big(ds@.begin_of(header_len, v)),
    ensures
        r == ds@.fits_offset64(header_len),
{
    let n: usize = begins.len();
    let mut v: usize = 0;
    while v < n
        invariant
            v <= n,
            n == begins@.len(),
            n == ds@.vars.len(),
            forall|j: int|
                0 <= j < begins@.len() ==> #[trigger] begins@[j] == big(
                    ds@.begin_of(header_len, j),
                ),
            forall|j: int| 0 <= j < v ==> #[trigger] ds@.begin_of(header_len, j) <= OFFSET_MAX,
        decreases n - v,
    {
        assert(begins@[v as int] == big(ds@.begin_of(header_len, v as int)));
        if !big_le(begins[v], OFFSET_MAX, Ghost(ds@.begin_of(header_len, v as int))) {
            return false;
        }
        v += 1;
    }
    true
}

/// The offsets as plain numbers, where each fits in 64 bits.
pub(crate) fn plain_begins(begins: &Vec<Option<u64>>) -> (r: Vec<u64>)
    requires
        forall|v: int| 0 <= v < begins@.len() ==> (#[trigger] begins@[v]) is Some,
    ensures
        r@.len() == begins@.len(),
        forall|v: int| 0 <= v < r@.len() ==> begins@[v] == Some(#[trigger] r@[v]),
{
    let n: usize = begins.len();
    let mut out: Vec<u64> = Vec::new();
    let mut v: usize = 0;
    while v < n
        invariant
            v <= n,
            n == begins@.len(),
            forall|j: int| 0 <= j < begins@.len() ==> (#[trigger] begins@[j]) is Some,
            out@.len() == v,
            forall|j: int| 0 <= j < v ==> begins@[j] == Some(#[trigger] out@[j]),
        decreases n - v,
    {
        assert(begins@[v as int] is Some);
        match begins[v] {
            Some(b) => out.push(b),
            None => {},
        }
        v += 1;
    }
    out
}

/// The bytes of one record.
pub(crate) fn compute_stride(sizes: &Vec<VarSize>, records: usize, Ghost(ds): Ghost<DataSetView>) -> (r:
    Option<u64>)
    requires
        sizes@.len() == ds.vars.len(),
        forall|v: int| 0 <= v < sizes@.len() ==> (#[trigger] sizes@[v]).describes(ds, v),
        records == ds.num_record_vars(),
    ensures
        r == big(ds.record_stride()),
{
    let n: usize = sizes.len();
    let mut stride: Option<u64> = Some(0);
    let mut v: usize = 0;
    while v < n
        invariant
            v <= n,
            n == sizes@.len(),
            n == ds.vars.len(),
            forall|j: int| 0 <= j < sizes@.len() ==> (#[trigger] sizes@[j]).describes(ds, j),
            records == ds.num_record_vars(),
            stride == big(record_before(ds, v as int)),
        decreases n - v,
    {
        proof {
            lemma_before_step(ds, v as int);
        }
        if sizes[v].is_record {
            let slot = sizes[v].slot(records, Ghost(ds), Ghost(v as int));
            stride =
            big_add(stride, slot, Ghost(record_before(ds, v as int)), Ghost(ds.slot(v as int)));
        }
        v += 1;
    }
    stride
}

} // verus!
