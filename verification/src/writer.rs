//! The writer: the bytes of the file that holds a data set and the data of
//! its variables.
use crate::data_set::model::{lemma_with_num_records_twice, DataSetView};
use crate::data_set::named::{
    find_named, lemma_find_named, lemma_find_named_at, same_index, same_text, views, Named,
};
use crate::data_set::DataSet;
use crate::data_vector::{elems_bytes, DataVector, Values};
use crate::error::{WriteError, WriteErrorView};
use crate::header::{check_header_fits, header_bytes, header_fits, HeaderView};
use crate::layout::{compute_sizes, VarSize, Version, FIELD_MAX};
use crate::planner::{plan_file, spec_plan, LayoutView};
use crate::primitive::{lemma_round_up_4, put_zeros, zeros};
use vstd::prelude::*;

verus! {

/// The data supplied for one variable, as contracts see it.
pub ghost struct VariableDataView {
    pub name: Seq<char>,
    pub values: Values,
}

impl Named for VariableDataView {
    open spec fn name_of(&self) -> Seq<char> {
        self.name
    }
}

/// The data supplied for the variable of that name.
#[derive(Debug, PartialEq, Eq)]
pub struct VariableData {
    pub(crate) name: String,
    pub(crate) values: DataVector,
}

impl View for VariableData {
    type V = VariableDataView;

    open(crate) spec fn view(&self) -> VariableDataView {
        VariableDataView { name: self.name@, values: self.values@ }
    }
}

impl VariableData {
    /// The data `values` for the variable named `name`.
    pub fn new(name: &str, values: DataVector) -> (r: VariableData)
        ensures
            r@ == (VariableDataView { name: name@, values: values@ }),
    {
        VariableData { name: name.to_owned(), values }
    }

    /// The name of the variable.
    pub fn name(&self) -> (r: String)
        ensures
            r@ == self@.name,
    {
        self.name.clone()
    }

    /// The values.
    pub fn values(&self) -> (r: &DataVector)
        ensures
            r@ == self@.values,
    {
        &self.values
    }
}

/// What is wrong with the data of the first of the first `n` variables that
/// has no data or data of another type, if there is such a variable. The
/// data of a variable is the first that is supplied under its name.
pub open spec fn first_bad_data(ds: DataSetView, data: Seq<VariableDataView>, n: int) -> Option<
    WriteErrorView,
>
    decreases n,
{
    if n <= 0 {
        None
    } else {
        match first_bad_data(ds, data, n - 1) {
            Some(e) => Some(e),
            None => match find_named(data, ds.vars[n - 1].name) {
                None => Some(WriteErrorView::VariableNotFound(ds.vars[n - 1].name)),
                Some(i) => if data[i].values.data_type != ds.vars[n - 1].data_type {
                    Some(WriteErrorView::DataTypeMismatch(ds.vars[n - 1].name))
                } else {
                    None
                },
            },
        }
    }
}

/// The values supplied for each variable, in the order of the variables.
pub open spec fn picked_values(ds: DataSetView, data: Seq<VariableDataView>) -> Seq<Values> {
    Seq::new(ds.vars.len(), |v: int| data[find_named(data, ds.vars[v].name).unwrap()].values)
}

/// The first of the first `n` variables that is a record variable with
/// records of at least one element, if there is one.
pub open spec fn first_sized_record_var(ds: DataSetView, n: int) -> Option<int>
    decreases n,
{
    if n <= 0 {
        None
    } else {
        match first_sized_record_var(ds, n - 1) {
            Some(v) => Some(v),
            None => if ds.is_record_var(n - 1) && ds.chunk_len(n - 1) > 0 {
                Some(n - 1)
            } else {
                None
            },
        }
    }
}

/// The number of records that the data holds: as many as the data of the
/// first record variable with records of at least one element holds whole.
/// Where there is no such variable, the size of the unlimited dimension.
pub open spec fn derived_num_records(ds: DataSetView, values: Seq<Values>) -> nat {
    match first_sized_record_var(ds, ds.vars.len() as int) {
        Some(v) => values[v].elems.len() / ds.chunk_len(v),
        None => ds.num_records(),
    }
}

/// The number of elements that the data of the variable at `v` must hold.
pub open spec fn expected_len(ds: DataSetView, num_records: nat, v: int) -> nat {
    if ds.is_record_var(v) {
        num_records * ds.chunk_len(v)
    } else {
        ds.chunk_len(v)
    }
}

/// What is wrong with the data of the first of the first `n` variables whose
/// data has not the length expected, if there is such a variable.
pub open spec fn first_bad_length(ds: DataSetView, values: Seq<Values>, num_records: nat, n: int)
    -> Option<WriteErrorView>
    decreases n,
{
    if n <= 0 {
        None
    } else {
        match first_bad_length(ds, values, num_records, n - 1) {
            Some(e) => Some(e),
            None => {
                let expected = expected_len(ds, num_records, n - 1);
                let got = values[n - 1].elems.len();
                if got == expected {
                    None
                } else if ds.is_record_var(n - 1) {
                    Some(
                        WriteErrorView::RecordLengthMismatch(ds.vars[n - 1].name, expected, got),
                    )
                } else {
                    Some(WriteErrorView::DataLengthMismatch(ds.vars[n - 1].name, expected, got))
                }
            },
        }
    }
}

/// The bytes of record `r` of the variable at `v`, or of the whole variable
/// where it is fixed and `r` is zero: the elements, then the zero bytes that
/// fill its slot.
pub open spec fn chunk_bytes(ds: DataSetView, values: Seq<Values>, v: int, r: int) -> Seq<u8> {
    elems_bytes(
        ds.vars[v].data_type,
        values[v].elems.subrange(r * ds.chunk_len(v), (r + 1) * ds.chunk_len(v)),
    ) + zeros((ds.slot(v) - ds.vsize_raw(v)) as nat)
}

/// The bytes of the fixed variables among the first `n` variables.
pub open spec fn fixed_part(ds: DataSetView, values: Seq<Values>, n: int) -> Seq<u8>
    decreases n,
{
    if n <= 0 {
        Seq::empty()
    } else if ds.is_record_var(n - 1) {
        fixed_part(ds, values, n - 1)
    } else {
        fixed_part(ds, values, n - 1) + chunk_bytes(ds, values, n - 1, 0)
    }
}

/// The bytes that the record variables among the first `n` variables take in
/// record `r`.
pub open spec fn record_part(ds: DataSetView, values: Seq<Values>, r: int, n: int) -> Seq<u8>
    decreases n,
{
    if n <= 0 {
        Seq::empty()
    } else if ds.is_record_var(n - 1) {
        record_part(ds, values, r, n - 1) + chunk_bytes(ds, values, n - 1, r)
    } else {
        record_part(ds, values, r, n - 1)
    }
}

/// The bytes of the first `m` records.
pub open spec fn records_part(ds: DataSetView, values: Seq<Values>, m: int) -> Seq<u8>
    decreases m,
{
    if m <= 0 {
        Seq::empty()
    } else {
        records_part(ds, values, m - 1) + record_part(ds, values, m - 1, ds.vars.len() as int)
    }
}

/// The header of the file that is written to that plan.
pub open spec fn planned_header(ds: DataSetView, plan: LayoutView) -> HeaderView {
    HeaderView {
        version: plan.version,
        num_records: plan.num_records,
        data_set: ds,
        begins: plan.begins,
    }
}

/// The file: the header, the fixed variables, the records.
pub open spec fn file_bytes(ds: DataSetView, values: Seq<Values>, plan: LayoutView) -> Seq<u8> {
    header_bytes(planned_header(ds, plan)) + fixed_part(ds, values, ds.vars.len() as int)
        + records_part(ds, values, plan.num_records as int)
}

/// The bytes of the file that holds the data set and these values, with
/// that many records; or why the file is not written.
pub open spec fn spec_emit(
    ds: DataSetView,
    values: Seq<Values>,
    num_records: nat,
    request: Option<Version>,
) -> Result<Seq<u8>, WriteErrorView> {
    if !header_fits(ds, num_records) {
        Err(WriteErrorView::FormatLimitExceeded)
    } else {
        match first_bad_length(ds, values, num_records, ds.vars.len() as int) {
            Some(e) => Err(e),
            None => match spec_plan(ds, num_records, request) {
                Err(e) => Err(e),
                Ok(plan) => Ok(file_bytes(ds, values, plan)),
            },
        }
    }
}

/// The data set as it is once the file is written, and the bytes of the
/// file; or why the file is not written.
///
/// The number of records is taken from the data, and becomes the size of the
/// unlimited dimension.
pub open spec fn spec_write(ds: DataSetView, data: Seq<VariableDataView>, request: Option<Version>)
    -> Result<(DataSetView, Seq<u8>), WriteErrorView> {
    match first_bad_data(ds, data, ds.vars.len() as int) {
        Some(e) => Err(e),
        None => {
            let values = picked_values(ds, data);
            let n = derived_num_records(ds, values);
            let after = ds.with_num_records(n);
            match spec_emit(after, values, n, request) {
                Err(e) => Err(e),
                Ok(bytes) => Ok((after, bytes)),
            }
        },
    }
}

/// Looks for the data supplied under the name `name`.
fn find_data(data: &Vec<VariableData>, name: &str) -> (r: Option<usize>)
    ensures
        same_index(r, find_named(views(data@), name@)),
        r matches Some(i) ==> i < data@.len(),
{
    let n: usize = data.len();
    let mut i: usize = 0;
    while i < n
        invariant
            i <= n,
            n == data@.len(),
            forall|j: int| 0 <= j < i ==> (#[trigger] views(data@)[j]).name_of() != name@,
        decreases n - i,
    {
        if same_text(&data[i].name, name) {
            proof {
                lemma_find_named_at(views(data@), name@, i as int);
            }
            return Some(i);
        }
        i += 1;
    }
    proof {
        lemma_find_named(views(data@), name@);
    }
    None
}

/// Once the data of one of the first variables is bad, it is what is
/// reported.
proof fn lemma_bad_data_stays(ds: DataSetView, data: Seq<VariableDataView>, k: int, n: int)
    requires
        k <= n,
    ensures
        first_bad_data(ds, data, k) is Some ==> first_bad_data(ds, data, n) == first_bad_data(
            ds,
            data,
            k,
        ),
    decreases n - k,
{
    if k < n {
        lemma_bad_data_stays(ds, data, k, n - 1);
    }
}

/// For each variable, the place of its data among the data supplied.
fn resolve_data(ds: &DataSet, data: &Vec<VariableData>) -> (r: Result<Vec<usize>, WriteError>)
    ensures
        match first_bad_data(ds@, views(data@), ds@.vars.len() as int) {
            Some(e) => r is Err && r.unwrap_err()@ == e,
            None => r is Ok && picks_agree(ds@, views(data@), r.unwrap()@),
        },
{
    let n: usize = ds.num_vars();
    let mut picks: Vec<usize> = Vec::new();
    let mut v: usize = 0;
    while v < n
        invariant
            v <= n,
            n == ds@.vars.len(),
            first_bad_data(ds@, views(data@), v as int) is None,
            picks@.len() == v,
            forall|j: int|
                0 <= j < v ==> find_named(views(data@), ds@.vars[j].name) == Some(
                    #[trigger] picks@[j] as int,
                ) && picks@[j] < data@.len(),
        decreases n - v,
    {
        proof {
            lemma_bad_data_stays(ds@, views(data@), v + 1, n as int);
        }
        let var = ds.var_at(v).unwrap();
        match find_data(data, var.name.as_str()) {
            None => {
                return Err(WriteError::VariableNotFound(var.name()));
            },
            Some(i) => {
                assert(views(data@)[i as int] == data@[i as int]@);
                if data[i].values.data_type() != var.data_type {
                    return Err(WriteError::DataTypeMismatch(var.name()));
                }
                picks.push(i);
            },
        }
        v += 1;
    }
    Ok(picks)
}

/// Whether `picks` holds, for each variable, the place of its data.
pub open spec fn picks_agree(ds: DataSetView, data: Seq<VariableDataView>, picks: Seq<usize>)
    -> bool {
    &&& picks.len() == ds.vars.len()
    &&& forall|v: int|
        0 <= v < picks.len() ==> find_named(data, ds.vars[v].name) == Some(
            #[trigger] picks[v] as int,
        ) && picks[v] < data.len()
}

proof fn lemma_sized_record_var_stays(ds: DataSetView, k: int, n: int)
    requires
        k <= n,
    ensures
        first_sized_record_var(ds, k) is Some ==> first_sized_record_var(ds, n)
            == first_sized_record_var(ds, k),
    decreases n - k,
{
    if k < n {
        lemma_sized_record_var_stays(ds, k, n - 1);
    }
}

/// The number of records that the data holds.
fn derive_num_records(ds: &DataSet, data: &Vec<VariableData>, picks: &Vec<usize>) -> (r: usize)
    requires
        picks_agree(ds@, views(data@), picks@),
    ensures
        r == derived_num_records(ds@, picked_values(ds@, views(data@))),
{
    let (sizes, _) = compute_sizes(ds);
    let n: usize = sizes.len();
    let mut v: usize = 0;
    while v < n
        invariant
            v <= n,
            n == sizes@.len(),
            n == ds@.vars.len(),
            forall|j: int| 0 <= j < sizes@.len() ==> (#[trigger] sizes@[j]).describes(ds@, j),
            picks_agree(ds@, views(data@), picks@),
            first_sized_record_var(ds@, v as int) is None,
        decreases n - v,
    {
        assert(sizes@[v as int].describes(ds@, v as int));
        proof {
            lemma_sized_record_var_stays(ds@, v + 1, n as int);
        }
        if sizes[v].is_record {
            let i: usize = picks[v];
            assert(views(data@)[i as int] == data@[i as int]@);
            let len: usize = data[i].values.len();
            assert(len == picked_values(ds@, views(data@))[v as int].elems.len());
            match sizes[v].chunk_len {
                None => {
                    assert(len as int / ds@.chunk_len(v as int) as int == 0) by (nonlinear_arith)
                        requires
                            0 <= len < ds@.chunk_len(v as int),
                    ;
                    return 0;
                },
                Some(chunk) => {
                    if chunk > 0 {
                        let q: u64 = len as u64 / chunk;
                        assert(q <= len) by (nonlinear_arith)
                            requires
                                q == len as int / chunk as int,
                                chunk >= 1,
                                len >= 0,
                        ;
                        return q as usize;
                    }
                },
            }
        }
        v += 1;
    }
    ds.num_records()
}

/// What the writer needs of one variable to write its data.
pub(crate) struct ChunkSize {
    pub(crate) is_record: bool,
    pub(crate) chunk: usize,
    pub(crate) pad: usize,
}

impl ChunkSize {
    pub open(crate) spec fn describes(self, ds: DataSetView, v: int) -> bool {
        &&& self.is_record == ds.is_record_var(v)
        &&& self.chunk == ds.chunk_len(v)
        &&& self.pad == ds.slot(v) - ds.vsize_raw(v)
    }
}

/// The sizes as plain numbers, where every size fits its field.
fn chunk_sizes(sizes: &Vec<VarSize>, records: usize, Ghost(ds): Ghost<DataSetView>) -> (r: Vec<
    ChunkSize,
>)
    requires
        sizes@.len() == ds.vars.len(),
        forall|v: int| 0 <= v < sizes@.len() ==> (#[trigger] sizes@[v]).describes(ds, v),
        records == ds.num_record_vars(),
        ds.sizes_fit(),
    ensures
        r@.len() == ds.vars.len(),
        forall|v: int| 0 <= v < r@.len() ==> (#[trigger] r@[v]).describes(ds, v),
        forall|v: int| 0 <= v < r@.len() ==> (#[trigger] r@[v]).chunk <= FIELD_MAX,
{
    let n: usize = sizes.len();
    let mut out: Vec<ChunkSize> = Vec::new();
    let mut v: usize = 0;
    while v < n
        invariant
            v <= n,
            n == sizes@.len(),
            n == ds.vars.len(),
            forall|j: int| 0 <= j < sizes@.len() ==> (#[trigger] sizes@[j]).describes(ds, j),
            records == ds.num_record_vars(),
            ds.sizes_fit(),
            out@.len() == v,
            forall|j: int| 0 <= j < v ==> (#[trigger] out@[j]).describes(ds, j),
            forall|j: int| 0 <= j < v ==> (#[trigger] out@[j]).chunk <= FIELD_MAX,
        decreases n - v,
    {
        let size = &sizes[v];
        assert(size.describes(ds, v as int));
        assert(ds.vsize(v as int) <= FIELD_MAX);
        proof {
            lemma_round_up_4(ds.vsize_raw(v as int));
            let c = ds.chunk_len(v as int);
            let w = ds.vars[v as int].data_type.spec_size_of();
            assert(c <= c * w) by (nonlinear_arith)
                requires
                    w >= 1,
            ;
        }
        let slot: u64 = size.slot(records, Ghost(ds), Ghost(v as int)).unwrap();
        let raw: u64 = size.raw.unwrap();
        let chunk: u64 = size.chunk_len.unwrap();
        out.push(
            ChunkSize { is_record: size.is_record, chunk: chunk as usize, pad: (slot - raw) as usize },
        );
        v += 1;
    }
    out
}

proof fn lemma_bad_length_stays(ds: DataSetView, values: Seq<Values>, num_records: nat, k: int, n: int)
    requires
        k <= n,
    ensures
        first_bad_length(ds, values, num_records, k) is Some ==> first_bad_length(
            ds,
            values,
            num_records,
            n,
        ) == first_bad_length(ds, values, num_records, k),
    decreases n - k,
{
    if k < n {
        lemma_bad_length_stays(ds, values, num_records, k, n - 1);
    }
}

/// Tells whether the data of each variable has the length expected.
fn check_lengths(
    ds: &DataSet,
    data: &Vec<VariableData>,
    picks: &Vec<usize>,
    chunks: &Vec<ChunkSize>,
    num_records: usize,
) -> (r: Result<(), WriteError>)
    requires
        picks_agree(ds@, views(data@), picks@),
        chunks@.len() == ds@.vars.len(),
        forall|v: int| 0 <= v < chunks@.len() ==> (#[trigger] chunks@[v]).describes(ds@, v),
        forall|v: int| 0 <= v < chunks@.len() ==> (#[trigger] chunks@[v]).chunk <= FIELD_MAX,
        num_records <= FIELD_MAX,
    ensures
        match first_bad_length(
            ds@,
            picked_values(ds@, views(data@)),
            num_records as nat,
            ds@.vars.len() as int,
        ) {
            Some(e) => r is Err && r.unwrap_err()@ == e,
            None => r is Ok,
        },
{
    let n: usize = chunks.len();
    let ghost values = picked_values(ds@, views(data@));
    let mut v: usize = 0;
    while v < n
        invariant
            v <= n,
            n == chunks@.len(),
            n == ds@.vars.len(),
            values == picked_values(ds@, views(data@)),
            picks_agree(ds@, views(data@), picks@),
            forall|j: int| 0 <= j < chunks@.len() ==> (#[trigger] chunks@[j]).describes(ds@, j),
            forall|j: int| 0 <= j < chunks@.len() ==> (#[trigger] chunks@[j]).chunk <= FIELD_MAX,
            num_records <= FIELD_MAX,
            first_bad_length(ds@, values, num_records as nat, v as int) is None,
        decreases n - v,
    {
        proof {
            lemma_bad_length_stays(ds@, values, num_records as nat, v + 1, n as int);
        }
        assert(chunks@[v as int].describes(ds@, v as int));
        assert(chunks@[v as int].chunk <= FIELD_MAX);
        let i: usize = picks[v];
        assert(views(data@)[i as int] == data@[i as int]@);
        let got: u64 = data[i].values.len() as u64;
        assert(got == values[v as int].elems.len());
        let chunk: u64 = chunks[v].chunk as u64;
        let expected: u64 = if chunks[v].is_record {
            assert(num_records * chunk <= FIELD_MAX * FIELD_MAX) by (nonlinear_arith)
                requires
                    num_records <= FIELD_MAX,
                    chunk <= FIELD_MAX,
            ;
            num_records as u64 * chunk
        } else {
            chunk
        };
        if got != expected {
            let var = ds.var_at(v).unwrap();
            if chunks[v].is_record {
                return Err(WriteError::RecordLengthMismatch(var.name(), expected, got));
            } else {
                return Err(WriteError::DataLengthMismatch(var.name(), expected, got));
            }
        }
        v += 1;
    }
    Ok(())
}

/// Appends record `r` of the variable at `v`, or the whole variable where it
/// is fixed and `r` is zero.
fn put_chunk(
    out: &mut Vec<u8>,
    values: &DataVector,
    size: &ChunkSize,
    r: usize,
    Ghost(ds): Ghost<DataSetView>,
    Ghost(all): Ghost<Seq<Values>>,
    Ghost(v): Ghost<int>,
)
    requires
        0 <= v < all.len(),
        all[v] == values@,
        values@.data_type == ds.vars[v].data_type,
        size.describes(ds, v),
        (r + 1) * size.chunk <= values@.elems.len(),
    ensures
        final(out)@ == old(out)@ + chunk_bytes(ds, all, v, r as int),
{
    let chunk: usize = size.chunk;
    assert(r * chunk <= (r + 1) * chunk && (r + 1) * chunk == r * chunk + chunk)
        by (nonlinear_arith)
        requires
            r >= 0,
            chunk >= 0,
    ;
    let total: usize = values.len();
    let from: usize = r * chunk;
    values.encode_range(out, from, from + chunk);
    put_zeros(out, size.pad);
    assert(out@ =~= old(out)@ + chunk_bytes(ds, all, v, r as int));
}

/// What the loops of the writer rely on.
pub open spec fn ready(
    ds: DataSetView,
    data: Seq<VariableDataView>,
    picks: Seq<usize>,
    chunks: Seq<ChunkSize>,
    num_records: nat,
) -> bool {
    &&& picks_agree(ds, data, picks)
    &&& chunks.len() == ds.vars.len()
    &&& forall|j: int| 0 <= j < chunks.len() ==> (#[trigger] chunks[j]).describes(ds, j)
    &&& first_bad_data(ds, data, ds.vars.len() as int) is None
    &&& first_bad_length(ds, picked_values(ds, data), num_records, ds.vars.len() as int) is None
}

/// Appends the fixed variables.
fn put_fixed_part(
    out: &mut Vec<u8>,
    data: &Vec<VariableData>,
    picks: &Vec<usize>,
    chunks: &Vec<ChunkSize>,
    Ghost(ds): Ghost<DataSetView>,
    Ghost(num_records): Ghost<nat>,
)
    requires
        ready(ds, views(data@), picks@, chunks@, num_records),
    ensures
        final(out)@ == old(out)@ + fixed_part(
            ds,
            picked_values(ds, views(data@)),
            ds.vars.len() as int,
        ),
{
    let n: usize = chunks.len();
    let ghost supplied = views(data@);
    let ghost values = picked_values(ds, supplied);
    let mut v: usize = 0;
    assert(out@ =~= old(out)@ + fixed_part(ds, values, 0));
    while v < n
        invariant
            v <= n,
            n == chunks@.len(),
            supplied == views(data@),
            values == picked_values(ds, supplied),
            ready(ds, supplied, picks@, chunks@, num_records),
            out@ == old(out)@ + fixed_part(ds, values, v as int),
        decreases n - v,
    {
        assert(chunks@[v as int].describes(ds, v as int));
        if !chunks[v].is_record {
            let i: usize = picks[v];
            assert(supplied[i as int] == data@[i as int]@);
            proof {
                lemma_data_is_good(ds, supplied, num_records, v as int);
            }
            put_chunk(out, &data[i].values, &chunks[v], 0, Ghost(ds), Ghost(values), Ghost(v as int));
        }
        assert(out@ =~= old(out)@ + fixed_part(ds, values, v + 1));
        v += 1;
    }
}

/// Appends record `r`.
fn put_record(
    out: &mut Vec<u8>,
    data: &Vec<VariableData>,
    picks: &Vec<usize>,
    chunks: &Vec<ChunkSize>,
    r: usize,
    Ghost(ds): Ghost<DataSetView>,
    Ghost(num_records): Ghost<nat>,
)
    requires
        ready(ds, views(data@), picks@, chunks@, num_records),
        r < num_records,
    ensures
        final(out)@ == old(out)@ + record_part(
            ds,
            picked_values(ds, views(data@)),
            r as int,
            ds.vars.len() as int,
        ),
{
    let n: usize = chunks.len();
    let ghost supplied = views(data@);
    let ghost values = picked_values(ds, supplied);
    let mut v: usize = 0;
    assert(out@ =~= old(out)@ + record_part(ds, values, r as int, 0));
    while v < n
        invariant
            v <= n,
            r < num_records,
            n == chunks@.len(),
            supplied == views(data@),
            values == picked_values(ds, supplied),
            ready(ds, supplied, picks@, chunks@, num_records),
            out@ == old(out)@ + record_part(ds, values, r as int, v as int),
        decreases n - v,
    {
        assert(chunks@[v as int].describes(ds, v as int));
        if chunks[v].is_record {
            let i: usize = picks[v];
            assert(supplied[i as int] == data@[i as int]@);
            proof {
                lemma_data_is_good(ds, supplied, num_records, v as int);
                let c = ds.chunk_len(v as int) as int;
                assert((r + 1) * c <= num_records * c) by (nonlinear_arith)
                    requires
                        r < num_records,
                        c >= 0,
                ;
            }
            put_chunk(out, &data[i].values, &chunks[v], r, Ghost(ds), Ghost(values), Ghost(v as int));
        }
        assert(out@ =~= old(out)@ + record_part(ds, values, r as int, v + 1));
        v += 1;
    }
}

/// Appends all the records.
fn put_records(
    out: &mut Vec<u8>,
    data: &Vec<VariableData>,
    picks: &Vec<usize>,
    chunks: &Vec<ChunkSize>,
    num_records: usize,
    Ghost(ds): Ghost<DataSetView>,
)
    requires
        ready(ds, views(data@), picks@, chunks@, num_records as nat),
    ensures
        final(out)@ == old(out)@ + records_part(
            ds,
            picked_values(ds, views(data@)),
            num_records as int,
        ),
{
    let ghost values = picked_values(ds, views(data@));
    let mut r: usize = 0;
    assert(out@ =~= old(out)@ + records_part(ds, values, 0));
    while r < num_records
        invariant
            r <= num_records,
            values == picked_values(ds, views(data@)),
            ready(ds, views(data@), picks@, chunks@, num_records as nat),
            out@ == old(out)@ + records_part(ds, values, r as int),
        decreases num_records - r,
    {
        put_record(out, data, picks, chunks, r, Ghost(ds), Ghost(num_records as nat));
        assert(out@ =~= old(out)@ + records_part(ds, values, r + 1));
        r += 1;
    }
}

/// Writes the file that holds the data set as it stands.
fn emit(
    ds: &DataSet,
    data: &Vec<VariableData>,
    picks: &Vec<usize>,
    num_records: usize,
    request: Option<Version>,
) -> (r: Result<Vec<u8>, WriteError>)
    requires
        picks_agree(ds@, views(data@), picks@),
        first_bad_data(ds@, views(data@), ds@.vars.len() as int) is None,
    ensures
        match spec_emit(ds@, picked_values(ds@, views(data@)), num_records as nat, request) {
            Ok(bytes) => r is Ok && r.unwrap()@ == bytes,
            Err(e) => r is Err && r.unwrap_err()@ == e,
        },
{
    let (sizes, records) = compute_sizes(ds);
    if !check_header_fits(ds, &sizes, num_records as u64) {
        return Err(WriteError::FormatLimitExceeded);
    }
    let chunks = chunk_sizes(&sizes, records, Ghost(ds@));
    match check_lengths(ds, data, picks, &chunks, num_records) {
        Err(e) => {
            return Err(e);
        },
        Ok(()) => {},
    }
    let planned = match plan_file(ds, num_records as u64, request) {
        Err(e) => {
            return Err(e);
        },
        Ok(p) => p,
    };
    let mut out: Vec<u8> = planned.header;
    put_fixed_part(&mut out, data, picks, &chunks, Ghost(ds@), Ghost(num_records as nat));
    put_records(&mut out, data, picks, &chunks, num_records, Ghost(ds@));
    Ok(out)
}

/// Writes the file that holds the data set and the data of its variables,
/// and sets the size of the unlimited dimension to the number of records
/// that the data holds.
///
/// The data of a variable is the first that is supplied under its name, and
/// what is supplied under other names is left aside. A fixed variable needs
/// as many elements as its shape has, a record variable as many as the
/// records hold together. With no version asked for the classic format is
/// taken wherever it can hold the file. Where the file is not written the
/// data set stays as it was.
pub fn write(ds: &mut DataSet, data: &Vec<VariableData>, request: Option<Version>) -> (r: Result<
    Vec<u8>,
    WriteError,
>)
    ensures
        match spec_write(old(ds)@, views(data@), request) {
            Ok((after, bytes)) => r is Ok && r.unwrap()@ == bytes && final(ds)@ == after,
            Err(e) => r is Err && r.unwrap_err()@ == e && final(ds)@ == old(ds)@,
        },
{
    let ghost before = ds@;
    let ghost supplied = views(data@);
    let picks = match resolve_data(ds, data) {
        Err(e) => {
            return Err(e);
        },
        Ok(p) => p,
    };
    let num_records: usize = derive_num_records(ds, data, &picks);
    let old_records: usize = ds.num_records();
    proof {
        use_type_invariant(&*ds);
        lemma_with_num_records_twice(before, num_records as nat, old_records as nat);
        crate::data_set::model::lemma_with_num_records_valid(before, old_records as nat);
    }
    ds.set_num_records(num_records);
    proof {
        assert(picked_values(ds@, supplied) =~= picked_values(before, supplied));
        lemma_same_vars_same_data(before, ds@, supplied, before.vars.len() as int);
    }
    let r = emit(ds, data, &picks, num_records, request);
    if r.is_err() {
        ds.set_num_records(old_records);
    }
    r
}

/// Whether data is bad depends on the variables alone.
proof fn lemma_same_vars_same_data(a: DataSetView, b: DataSetView, data: Seq<VariableDataView>, n: int)
    requires
        a.vars == b.vars,
    ensures
        first_bad_data(a, data, n) == first_bad_data(b, data, n),
    decreases n,
{
    if n > 0 {
        lemma_same_vars_same_data(a, b, data, n - 1);
    }
}

/// Where no data is bad, the data of each variable is of its type and has
/// the length expected.
pub proof fn lemma_data_is_good(ds: DataSetView, data: Seq<VariableDataView>, num_records: nat, v: int)
    requires
        0 <= v < ds.vars.len(),
        first_bad_data(ds, data, ds.vars.len() as int) is None,
        first_bad_length(ds, picked_values(ds, data), num_records, ds.vars.len() as int) is None,
    ensures
        find_named(data, ds.vars[v].name) is Some,
        picked_values(ds, data)[v].data_type == ds.vars[v].data_type,
        picked_values(ds, data)[v].elems.len() == expected_len(ds, num_records, v),
{
    lemma_bad_data_stays(ds, data, v + 1, ds.vars.len() as int);
    lemma_bad_length_stays(ds, picked_values(ds, data), num_records, v + 1, ds.vars.len() as int);
}

} // verus!
