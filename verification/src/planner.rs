//! The planner: which version a file is written in, and where the data of
//! each variable begins.
use crate::data_set::model::DataSetView;
use crate::data_set::DataSet;
use crate::error::{WriteError, WriteErrorView};
use crate::header::{
    begins_fit, begins_view, check_header_fits, encode_header, header_bytes, header_fits,
    header_len, lemma_header_len, sizing_header, HeaderView,
};
use crate::layout::{
    check_classic, check_offset64, compute_sizes, plain_begins, plan_begins, VarSize, Version,
    FIELD_MAX, OFFSET_MAX,
};
use crate::primitive::lemma_pow256_values;
use vstd::prelude::*;

verus! {

/// The plan of a file as contracts see it.
pub ghost struct LayoutView {
    pub version: Version,
    pub num_records: nat,
    pub header_len: nat,
    pub begins: Seq<nat>,
    pub vsizes: Seq<nat>,
}

/// The plan of a file of that version.
pub open spec fn planned(ds: DataSetView, num_records: nat, version: Version) -> LayoutView {
    LayoutView {
        version,
        num_records,
        header_len: header_len(ds, num_records, version),
        begins: Seq::new(
            ds.vars.len(),
            |v: int| ds.begin_of(header_len(ds, num_records, version), v),
        ),
        vsizes: Seq::new(ds.vars.len(), |v: int| ds.vsize(v)),
    }
}

/// The plan of the file that holds the data set with that many records, for
/// a request that is a version or leaves the choice open; or why there is
/// none.
///
/// There is no plan where a count or a size is beyond its field
/// (`FormatLimitExceeded`), where the classic format was asked for and cannot
/// hold the file (`OffsetOverflow`), and where not even the 64-bit offset
/// format can hold the offsets (`FormatLimitExceeded`).
pub open spec fn spec_plan(ds: DataSetView, num_records: nat, request: Option<Version>) -> Result<
    LayoutView,
    WriteErrorView,
> {
    if !header_fits(ds, num_records) {
        Err(WriteErrorView::FormatLimitExceeded)
    } else {
        match ds.choose_version(
            num_records,
            header_len(ds, num_records, Version::Classic),
            header_len(ds, num_records, Version::Offset64Bit),
            request,
        ) {
            Err(e) => Err(e),
            Ok(version) => Ok(planned(ds, num_records, version)),
        }
    }
}

/// The plan of a file.
#[derive(Debug)]
pub struct Layout {
    pub(crate) version: Version,
    pub(crate) num_records: u64,
    pub(crate) header_len: usize,
    pub(crate) begins: Vec<u64>,
    pub(crate) vsizes: Vec<u64>,
}

impl View for Layout {
    type V = LayoutView;

    open(crate) spec fn view(&self) -> LayoutView {
        LayoutView {
            version: self.version,
            num_records: self.num_records as nat,
            header_len: self.header_len as nat,
            begins: begins_view(self.begins@),
            vsizes: begins_view(self.vsizes@),
        }
    }
}

impl Layout {
    /// The version in which the file is written.
    pub fn version(&self) -> (r: Version)
        ensures
            r == self@.version,
    {
        self.version
    }

    /// The number of bytes of the header.
    pub fn header_len(&self) -> (r: usize)
        ensures
            r == self@.header_len,
    {
        self.header_len
    }

    /// The number of variables.
    pub fn num_vars(&self) -> (r: usize)
        ensures
            r == self@.begins.len(),
    {
        self.begins.len()
    }

    /// Where the data of the variable at `index` begins, if there is such a
    /// variable.
    pub fn begin_at(&self, index: usize) -> (r: Option<u64>)
        ensures
            index < self@.begins.len() ==> r is Some && r.unwrap() == self@.begins[index as int],
            index >= self@.begins.len() ==> r is None,
    {
        if index < self.begins.len() {
            Some(self.begins[index])
        } else {
            None
        }
    }

    /// The size that the header gives for the variable at `index`, if there
    /// is such a variable.
    pub fn vsize_at(&self, index: usize) -> (r: Option<u64>)
        ensures
            index < self@.vsizes.len() ==> r is Some && r.unwrap() == self@.vsizes[index as int],
            index >= self@.vsizes.len() ==> r is None,
    {
        if index < self.vsizes.len() {
            Some(self.vsizes[index])
        } else {
            None
        }
    }
}

/// What the planner hands to the writer.
#[derive(Debug)]
pub(crate) struct Planned {
    pub(crate) version: Version,
    pub(crate) header: Vec<u8>,
    pub(crate) begins: Vec<u64>,
    pub(crate) sizes: Vec<VarSize>,
    pub(crate) records: usize,
}

impl Planned {
    /// Whether this is the plan `plan` of the file that holds `ds`.
    pub open(crate) spec fn realises(self, ds: DataSetView, plan: LayoutView) -> bool {
        &&& self.version == plan.version
        &&& begins_view(self.begins@) == plan.begins
        &&& self.header@.len() == plan.header_len
        &&& self.header@ == header_bytes(
            HeaderView {
                version: plan.version,
                num_records: plan.num_records,
                data_set: ds,
                begins: plan.begins,
            },
        )
        &&& self.sizes@.len() == ds.vars.len()
        &&& forall|v: int| 0 <= v < self.sizes@.len() ==> (#[trigger] self.sizes@[v]).describes(ds, v)
        &&& self.records == ds.num_record_vars()
    }
}

/// As many zeros as there are variables.
fn zero_begins(n: usize) -> (r: Vec<u64>)
    ensures
        r@.len() == n,
        begins_view(r@) == Seq::new(n as nat, |v: int| 0nat),
{
    let mut out: Vec<u64> = Vec::new();
    let mut i: usize = 0;
    while i < n
        invariant
            i <= n,
            out@.len() == i,
            forall|j: int| 0 <= j < i ==> out@[j] == 0,
        decreases n - i,
    {
        out.push(0);
        i += 1;
    }
    assert(begins_view(out@) =~= Seq::new(n as nat, |v: int| 0nat));
    out
}

/// Plans the file, and writes its header.
pub(crate) fn plan_file(ds: &DataSet, num_records: u64, request: Option<Version>) -> (r: Result<
    Planned,
    WriteError,
>)
    ensures
        match spec_plan(ds@, num_records as nat, request) {
            Ok(plan) => r is Ok && r.unwrap().realises(ds@, plan),
            Err(e) => r is Err && r.unwrap_err()@ == e,
        },
{
    let ghost nr = num_records as nat;
    let (sizes, records) = compute_sizes(ds);
    if !check_header_fits(ds, &sizes, num_records) {
        return Err(WriteError::FormatLimitExceeded);
    }
    proof {
        lemma_pow256_values();
    }
    let n: usize = ds.num_vars();
    let zeros = zero_begins(n);
    assert(begins_fit(begins_view(zeros@), Version::Classic));
    assert(begins_fit(begins_view(zeros@), Version::Offset64Bit));
    let classic = encode_header(ds, &sizes, num_records, Version::Classic, &zeros);
    assert(classic@ == header_bytes(sizing_header(ds@, nr, Version::Classic)));
    let classic_len: usize = classic.len();
    let classic_begins = plan_begins(ds, &sizes, records, classic_len);
    let wants_classic: bool = match request {
        Some(Version::Offset64Bit) => false,
        _ => true,
    };
    let version: Version;
    let begins: Vec<u64>;
    if wants_classic && check_classic(
        ds,
        &sizes,
        records,
        &classic_begins,
        num_records,
        Ghost(classic_len as nat),
    ) {
        assert forall|v: int| 0 <= v < classic_begins@.len() implies (
        #[trigger] classic_begins@[v]) is Some by {
            assert(ds@.begin_of(classic_len as nat, v) <= FIELD_MAX);
        }
        version = Version::Classic;
        begins = plain_begins(&classic_begins);
        assert(begins_fit(begins_view(begins@), version)) by {
            assert forall|v: int| 0 <= v < begins@.len() implies #[trigger] begins_view(begins@)[v]
                < 0x1_0000_0000 by {
                assert(classic_begins@[v] == Some(begins@[v]));
                assert(ds@.begin_of(classic_len as nat, v) <= FIELD_MAX);
            }
        }
        assert(begins_view(begins@) =~= planned(ds@, nr, version).begins) by {
            assert forall|v: int| 0 <= v < begins@.len() implies #[trigger] begins_view(begins@)[v]
                == ds@.begin_of(classic_len as nat, v) by {
                assert(classic_begins@[v] == Some(begins@[v]));
                assert(ds@.begin_of(classic_len as nat, v) <= FIELD_MAX);
            }
        }
    } else {
        match request {
            Some(Version::Classic) => {
                return Err(WriteError::OffsetOverflow);
            },
            _ => {},
        }
        let wide = encode_header(ds, &sizes, num_records, Version::Offset64Bit, &zeros);
        assert(wide@ == header_bytes(sizing_header(ds@, nr, Version::Offset64Bit)));
        let wide_len: usize = wide.len();
        let wide_begins = plan_begins(ds, &sizes, records, wide_len);
        if !check_offset64(ds, &wide_begins, Ghost(wide_len as nat)) {
            return Err(WriteError::FormatLimitExceeded);
        }
        assert forall|v: int| 0 <= v < wide_begins@.len() implies (#[trigger] wide_begins@[v]) is Some by {
            assert(ds@.begin_of(wide_len as nat, v) <= OFFSET_MAX);
        }
        version = Version::Offset64Bit;
        begins = plain_begins(&wide_begins);
        assert(begins_fit(begins_view(begins@), version)) by {
            assert forall|v: int| 0 <= v < begins@.len() implies #[trigger] begins_view(begins@)[v]
                < 0x1_0000_0000_0000_0000 by {
                assert(wide_begins@[v] == Some(begins@[v]));
            }
        }
        assert(begins_view(begins@) =~= planned(ds@, nr, version).begins) by {
            assert forall|v: int| 0 <= v < begins@.len() implies #[trigger] begins_view(begins@)[v]
                == ds@.begin_of(wide_len as nat, v) by {
                assert(wide_begins@[v] == Some(begins@[v]));
                assert(ds@.begin_of(wide_len as nat, v) <= OFFSET_MAX);
            }
        }
    }
    let header = encode_header(ds, &sizes, num_records, version, &begins);
    proof {
        lemma_header_len(
            HeaderView {
                version,
                num_records: nr,
                data_set: ds@,
                begins: begins_view(begins@),
            },
        );
    }
    Ok(Planned { version, header, begins, sizes, records })
}

/// Plans the file that holds the data set with `num_records` records.
///
/// With no version asked for, the classic format is taken wherever it can
/// hold the file, and the 64-bit offset format elsewhere.
pub fn plan(ds: &DataSet, num_records: usize, request: Option<Version>) -> (r: Result<
    Layout,
    WriteError,
>)
    ensures
        match spec_plan(ds@, num_records as nat, request) {
            Ok(plan) => r is Ok && r.unwrap()@ == plan,
            Err(e) => r is Err && r.unwrap_err()@ == e,
        },
{
    let planned = match plan_file(ds, num_records as u64, request) {
        Err(e) => {
            return Err(e);
        },
        Ok(p) => p,
    };
    let n: usize = planned.sizes.len();
    let mut vsizes: Vec<u64> = Vec::new();
    let mut v: usize = 0;
    while v < n
        invariant
            v <= n,
            n == planned.sizes@.len(),
            n == ds@.vars.len(),
            header_fits(ds@, num_records as nat),
            forall|j: int|
                0 <= j < planned.sizes@.len() ==> (#[trigger] planned.sizes@[j]).describes(ds@, j),
            vsizes@.len() == v,
            forall|j: int| 0 <= j < v ==> #[trigger] vsizes@[j] == ds@.vsize(j),
        decreases n - v,
    {
        assert(planned.sizes@[v as int].describes(ds@, v as int));
        assert(ds@.vsize(v as int) <= FIELD_MAX);
        match planned.sizes[v].padded {
            Some(p) => vsizes.push(p),
            None => {},
        }
        v += 1;
    }
    let layout = Layout {
        version: planned.version,
        num_records: num_records as u64,
        header_len: planned.header.len(),
        begins: planned.begins,
        vsizes,
    };
    assert(layout@.vsizes =~= spec_plan(ds@, num_records as nat, request)->Ok_0.vsizes);
    Ok(layout)
}

} // verus!
