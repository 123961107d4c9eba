//! What holds of the reader and the writer together.
use crate::data_set::model::{
    find_unlimited, lemma_find_unlimited, lemma_with_num_records_twice,
    lemma_with_num_records_valid, DataSetView,
};
use crate::data_set::named::views;
use crate::data_set::DataSet;
use crate::data_vector::{
    all_admitted, elems_bytes, lemma_elems_bytes_len, lemma_elems_round_trip, Values,
};
use crate::error::ReadErrorView;
use crate::header::laws::{
    attrs_admitted, dims_storable, holds_at, lemma_header_round_trip, lemma_holds_at_concat,
    lemma_u32_round_trip, storable,
};
use crate::header::parse::parse_name;
use crate::header::{
    begins_fit, header_bytes, header_len, lemma_header_len, name_bytes, padded, u32_bytes,
    HeaderView,
};
use crate::layout::{
    fixed_before, lemma_chunk_within, record_before, Version, FIELD_MAX, OFFSET_MAX,
};
use crate::name_string::valid_name;
use crate::planner::{planned, spec_plan, LayoutView};
use crate::primitive::{lemma_pow256_values, lemma_round_up_4, padding, zeros};
use crate::reader::{chunk_at, in_bounds, read_all, read_chunk, read_records, spec_open};
use crate::writer::{
    chunk_bytes, derived_num_records, expected_len, file_bytes, first_bad_data, first_bad_length,
    fixed_part, lemma_data_is_good, picked_values, planned_header, record_part, records_part,
    spec_emit, spec_write, VariableData, VariableDataView,
};
use vstd::prelude::*;
use vstd::utf8::*;

verus! {

/// A name is read back from what was written for it exactly when it is a
/// valid name, and then it is read back as it was: the codec accepts the
/// names that the rule on names accepts, and no others.
pub proof fn lemma_codec_accepts_valid_names(s: Seq<u8>, pos: int, name: Seq<char>)
    requires
        encode_utf8(name).len() < 0x1_0000_0000,
        holds_at(s, pos, name_bytes(name)),
    ensures
        parse_name(s, pos) is Ok <==> valid_name(name),
        valid_name(name) ==> parse_name(s, pos) == Ok::<(Seq<char>, int), ReadErrorView>(
            (name, pos + name_bytes(name).len()),
        ),
        !valid_name(name) ==> parse_name(s, pos) == Err::<(Seq<char>, int), ReadErrorView>(
            ReadErrorView::InvalidName(encode_utf8(name)),
        ),
{
    let b = encode_utf8(name);
    lemma_holds_at_concat(s, pos, u32_bytes(b.len()), padded(b));
    lemma_u32_round_trip(s, pos, b.len());
    lemma_holds_at_concat(s, pos + 4, b, zeros(padding(b.len())));
    lemma_round_up_4(b.len());
    encode_utf8_valid_utf8(name);
    encode_utf8_decode_utf8(name);
}

pub proof fn lemma_read_records_len(s: Seq<u8>, h: HeaderView, v: int, m: int)
    requires
        0 <= m,
    ensures
        read_records(s, h, v, m).len() == m * h.data_set.chunk_len(v),
    decreases m,
{
    let c = h.data_set.chunk_len(v) as int;
    if m > 0 {
        lemma_read_records_len(s, h, v, m - 1);
        assert((m - 1) * c + c == m * c) by (nonlinear_arith);
    } else {
        assert(0 * c == 0);
    }
}

/// A variable that is read whole has as many elements as its shape says,
/// the unlimited dimension counting for the number of records.
pub proof fn lemma_read_all_len(s: Seq<u8>, h: HeaderView, v: int)
    ensures
        read_all(s, h, v).len() == expected_len(h.data_set, h.num_records, v),
{
    lemma_read_records_len(s, h, v, h.num_records as int);
}

/// Among the first `m` records that are read one after the other, record `i`
/// is the `i`-th slice.
pub proof fn lemma_record_in_records(s: Seq<u8>, h: HeaderView, v: int, i: int, m: int)
    requires
        0 <= i < m,
    ensures
        (i + 1) * h.data_set.chunk_len(v) <= read_records(s, h, v, m).len(),
        read_records(s, h, v, m).subrange(
            i * h.data_set.chunk_len(v),
            (i + 1) * h.data_set.chunk_len(v),
        ) == read_chunk(s, h, v, i),
    decreases m,
{
    let c = h.data_set.chunk_len(v) as int;
    let front = read_records(s, h, v, m - 1);
    let last = read_chunk(s, h, v, m - 1);
    lemma_read_records_len(s, h, v, m - 1);
    lemma_read_records_len(s, h, v, m);
    assert(0 <= i * c && (i + 1) * c == i * c + c && (i + 1) * c <= m * c && (m - 1) * c + c == m
        * c) by (nonlinear_arith)
        requires
            0 <= i < m,
            0 <= c,
    ;
    if i < m - 1 {
        lemma_record_in_records(s, h, v, i, m - 1);
        assert((front + last).subrange(i * c, (i + 1) * c) =~= front.subrange(i * c, (i + 1) * c));
    } else {
        assert((front + last).subrange(i * c, (i + 1) * c) =~= last);
    }
}

/// Record `i` of a record variable, read alone, is the `i`-th slice of the
/// variable read whole.
pub proof fn lemma_record_is_slice_of_whole(s: Seq<u8>, h: HeaderView, v: int, i: int)
    requires
        h.data_set.is_record_var(v),
        0 <= i < h.num_records,
    ensures
        (i + 1) * h.data_set.chunk_len(v) <= read_all(s, h, v).len(),
        read_chunk(s, h, v, i) == read_all(s, h, v).subrange(
            i * h.data_set.chunk_len(v),
            (i + 1) * h.data_set.chunk_len(v),
        ),
{
    lemma_record_in_records(s, h, v, i, h.num_records as int);
}

/// Bytes that stand in a run of bytes stand there in any longer run.
pub proof fn lemma_holds_at_prefix(a: Seq<u8>, b: Seq<u8>, pos: int, t: Seq<u8>)
    requires
        holds_at(a, pos, t),
    ensures
        holds_at(a + b, pos, t),
{
    assert((a + b).subrange(pos, pos + t.len()) =~= a.subrange(pos, pos + t.len()));
}

/// Bytes that stand in a run of bytes stand as much further as what is put
/// before the run is long.
pub proof fn lemma_holds_at_suffix(a: Seq<u8>, b: Seq<u8>, pos: int, t: Seq<u8>)
    requires
        holds_at(b, pos, t),
    ensures
        holds_at(a + b, a.len() + pos, t),
{
    assert((a + b).subrange(a.len() + pos, a.len() + pos + t.len()) =~= b.subrange(
        pos,
        pos + t.len(),
    ));
}

/// The data of every variable has the length expected.
pub open spec fn lengths_agree(ds: DataSetView, values: Seq<Values>, num_records: nat) -> bool {
    &&& values.len() == ds.vars.len()
    &&& forall|v: int|
        0 <= v < ds.vars.len() ==> (#[trigger] values[v]).elems.len() == expected_len(
            ds,
            num_records,
            v,
        )
}

/// The bytes of a record of a variable, or of a whole fixed variable, fill
/// its slot.
pub proof fn lemma_chunk_bytes_len(ds: DataSetView, values: Seq<Values>, num_records: nat, v: int, r: int)
    requires
        lengths_agree(ds, values, num_records),
        ds.is_chunk(num_records, v, r),
    ensures
        (r + 1) * ds.chunk_len(v) <= values[v].elems.len(),
        0 <= r * ds.chunk_len(v),
        (r + 1) * ds.chunk_len(v) == r * ds.chunk_len(v) + ds.chunk_len(v),
        chunk_bytes(ds, values, v, r).len() == ds.slot(v),
        ds.vsize_raw(v) <= ds.slot(v),
{
    let c = ds.chunk_len(v) as int;
    let n = num_records as int;
    assert(values[v].elems.len() == expected_len(ds, num_records, v));
    if ds.is_record_var(v) {
        assert(0 <= r * c && (r + 1) * c <= n * c && (r + 1) * c == r * c + c) by (nonlinear_arith)
            requires
                0 <= r < n,
                0 <= c,
        ;
    } else {
        assert(0 * c == 0 && 1 * c == c);
    }
    assert((r + 1) * c == r * c + c) by (nonlinear_arith);
    lemma_elems_bytes_len(ds.vars[v].data_type, values[v].elems.subrange(r * c, (r + 1) * c));
    lemma_round_up_4(ds.vsize_raw(v));
}

/// Where the fixed variables stand among the bytes of the fixed variables.
pub proof fn lemma_fixed_part(ds: DataSetView, values: Seq<Values>, num_records: nat, n: int, v: int)
    requires
        lengths_agree(ds, values, num_records),
        0 <= n <= ds.vars.len(),
    ensures
        fixed_part(ds, values, n).len() == fixed_before(ds, n),
        0 <= v < n && !ds.is_record_var(v) ==> holds_at(
            fixed_part(ds, values, n),
            fixed_before(ds, v) as int,
            chunk_bytes(ds, values, v, 0),
        ),
    decreases n,
{
    if n > 0 {
        lemma_fixed_part(ds, values, num_records, n - 1, v);
        let front = fixed_part(ds, values, n - 1);
        if !ds.is_record_var(n - 1) {
            let last = chunk_bytes(ds, values, n - 1, 0);
            lemma_chunk_bytes_len(ds, values, num_records, n - 1, 0);
            if v == n - 1 {
                assert(holds_at(last, 0, last)) by {
                    assert(last.subrange(0, last.len() as int) =~= last);
                }
                lemma_holds_at_suffix(front, last, 0, last);
            } else if 0 <= v < n - 1 && !ds.is_record_var(v) {
                lemma_holds_at_prefix(front, last, fixed_before(ds, v) as int, chunk_bytes(ds, values, v, 0));
            }
        }
    }
}

/// Where the record variables stand among the bytes of one record.
pub proof fn lemma_record_part(
    ds: DataSetView,
    values: Seq<Values>,
    num_records: nat,
    r: int,
    n: int,
    v: int,
)
    requires
        lengths_agree(ds, values, num_records),
        0 <= r < num_records,
        0 <= n <= ds.vars.len(),
    ensures
        record_part(ds, values, r, n).len() == record_before(ds, n),
        0 <= v < n && ds.is_record_var(v) ==> holds_at(
            record_part(ds, values, r, n),
            record_before(ds, v) as int,
            chunk_bytes(ds, values, v, r),
        ),
    decreases n,
{
    if n > 0 {
        lemma_record_part(ds, values, num_records, r, n - 1, v);
        let front = record_part(ds, values, r, n - 1);
        if ds.is_record_var(n - 1) {
            let last = chunk_bytes(ds, values, n - 1, r);
            lemma_chunk_bytes_len(ds, values, num_records, n - 1, r);
            if v == n - 1 {
                assert(holds_at(last, 0, last)) by {
                    assert(last.subrange(0, last.len() as int) =~= last);
                }
                lemma_holds_at_suffix(front, last, 0, last);
            } else if 0 <= v < n - 1 && ds.is_record_var(v) {
                lemma_holds_at_prefix(front, last, record_before(ds, v) as int, chunk_bytes(ds, values, v, r));
            }
        }
    }
}

/// Where the records of the record variables stand among the bytes of the
/// records.
pub proof fn lemma_records_part(
    ds: DataSetView,
    values: Seq<Values>,
    num_records: nat,
    m: int,
    r: int,
    v: int,
)
    requires
        lengths_agree(ds, values, num_records),
        0 <= m <= num_records,
    ensures
        records_part(ds, values, m).len() == m * ds.record_stride(),
        0 <= r < m && 0 <= v < ds.vars.len() && ds.is_record_var(v) ==> holds_at(
            records_part(ds, values, m),
            r * ds.record_stride() + record_before(ds, v),
            chunk_bytes(ds, values, v, r),
        ),
    decreases m,
{
    let st = ds.record_stride() as int;
    let n = ds.vars.len() as int;
    if m > 0 {
        lemma_records_part(ds, values, num_records, m - 1, r, v);
        let front = records_part(ds, values, m - 1);
        let last = record_part(ds, values, m - 1, n);
        lemma_record_part(ds, values, num_records, m - 1, n, v);
        assert((m - 1) * st + st == m * st) by (nonlinear_arith);
        if 0 <= r < m && 0 <= v < n && ds.is_record_var(v) {
            let t = chunk_bytes(ds, values, v, r);
            if r == m - 1 {
                lemma_holds_at_suffix(front, last, record_before(ds, v) as int, t);
            } else {
                lemma_holds_at_prefix(front, last, r * st + record_before(ds, v), t);
            }
        }
    } else {
        assert(0 * st == 0);
    }
}

/// In a file that was written, the bytes of each record of each variable,
/// and of each fixed variable, stand where the plan says, and the file is as
/// long as planned.
pub proof fn lemma_file_chunk(ds: DataSetView, values: Seq<Values>, plan: LayoutView, v: int, r: int)
    requires
        lengths_agree(ds, values, plan.num_records),
        plan.header_len == header_bytes(planned_header(ds, plan)).len(),
        ds.is_chunk(plan.num_records, v, r),
    ensures
        file_bytes(ds, values, plan).len() == ds.file_len(plan.header_len, plan.num_records),
        holds_at(
            file_bytes(ds, values, plan),
            ds.chunk_start(plan.header_len, v, r),
            chunk_bytes(ds, values, v, r),
        ),
{
    let n = ds.vars.len() as int;
    let m = plan.num_records as int;
    let head = header_bytes(planned_header(ds, plan));
    let fixed = fixed_part(ds, values, n);
    let records = records_part(ds, values, m);
    let t = chunk_bytes(ds, values, v, r);
    lemma_fixed_part(ds, values, plan.num_records, n, v);
    lemma_records_part(ds, values, plan.num_records, m, r, v);
    if ds.is_record_var(v) {
        lemma_holds_at_suffix(head + fixed, records, r * ds.record_stride() + record_before(ds, v), t);
    } else {
        lemma_holds_at_suffix(head, fixed, fixed_before(ds, v) as int, t);
        lemma_holds_at_prefix(head + fixed, records, (head.len() + fixed_before(ds, v)) as int, t);
    }
}

/// In a file that was written, each record of each variable, and each fixed
/// variable, is read back as the slice of the data that was written there.
pub proof fn lemma_chunk_reads_back(ds: DataSetView, values: Seq<Values>, plan: LayoutView, v: int, r: int)
    requires
        lengths_agree(ds, values, plan.num_records),
        plan == planned(ds, plan.num_records, plan.version),
        ds.is_chunk(plan.num_records, v, r),
        values[v].data_type == ds.vars[v].data_type,
        values[v].admitted(),
    ensures
        read_chunk(file_bytes(ds, values, plan), planned_header(ds, plan), v, r)
            == values[v].elems.subrange(r * ds.chunk_len(v), (r + 1) * ds.chunk_len(v)),
        chunk_at(planned_header(ds, plan), v, r) + ds.vsize_raw(v) <= file_bytes(
            ds,
            values,
            plan,
        ).len(),
{
    let h = planned_header(ds, plan);
    let file = file_bytes(ds, values, plan);
    let c = ds.chunk_len(v) as int;
    let dt = ds.vars[v].data_type;
    let sub = values[v].elems.subrange(r * c, (r + 1) * c);
    let pos = ds.chunk_start(plan.header_len, v, r);
    lemma_chunk_bytes_len(ds, values, plan.num_records, v, r);
    assert(0 <= r * c && (r + 1) * c == r * c + c && (r + 1) * c <= values[v].elems.len());
    assert(sub.len() == c);
    lemma_header_len(h);
    lemma_file_chunk(ds, values, plan, v, r);
    lemma_chunk_within(ds, plan.header_len, plan.num_records, v, r);
    lemma_holds_at_concat(file, pos, elems_bytes(dt, sub), zeros((ds.slot(v) - ds.vsize_raw(v)) as nat));
    assert(all_admitted(dt, sub)) by {
        assert forall|i: int| 0 <= i < sub.len() implies dt.admits(#[trigger] sub[i]) by {
            assert(sub[i] == values[v].elems[r * c + i]);
        }
    }
    lemma_elems_round_trip(dt, sub, file, pos);
    assert(chunk_at(h, v, r) == pos);
    assert(sub.len() == c);
    lemma_elems_bytes_len(dt, sub);
}

/// In a file that was written, the first `m` records of a record variable
/// are read back as the data that was written for them.
pub proof fn lemma_records_read_back(ds: DataSetView, values: Seq<Values>, plan: LayoutView, v: int, m: int)
    requires
        lengths_agree(ds, values, plan.num_records),
        plan == planned(ds, plan.num_records, plan.version),
        0 <= v < ds.vars.len(),
        ds.is_record_var(v),
        0 <= m <= plan.num_records,
        values[v].data_type == ds.vars[v].data_type,
        values[v].admitted(),
    ensures
        m * ds.chunk_len(v) <= values[v].elems.len(),
        read_records(file_bytes(ds, values, plan), planned_header(ds, plan), v, m)
            == values[v].elems.subrange(0, m * ds.chunk_len(v)),
    decreases m,
{
    let c = ds.chunk_len(v) as int;
    let n = plan.num_records as int;
    let elems = values[v].elems;
    assert(elems.len() == expected_len(ds, plan.num_records, v));
    assert(0 <= m * c <= n * c) by (nonlinear_arith)
        requires
            0 <= m <= n,
            0 <= c,
    ;
    if m > 0 {
        lemma_records_read_back(ds, values, plan, v, m - 1);
        lemma_chunk_reads_back(ds, values, plan, v, m - 1);
        assert((m - 1) * c + c == m * c && 0 <= (m - 1) * c) by (nonlinear_arith)
            requires
                m >= 1,
                0 <= c,
        ;
        assert(elems.subrange(0, (m - 1) * c) + elems.subrange((m - 1) * c, m * c) =~= elems.subrange(
            0,
            m * c,
        ));
    } else {
        assert(0 * c == 0);
        assert(elems.subrange(0, 0) =~= Seq::<int>::empty());
    }
}

/// In a file that was written, each variable is read back as the data that
/// was written for it.
pub proof fn lemma_variable_reads_back(ds: DataSetView, values: Seq<Values>, plan: LayoutView, v: int)
    requires
        lengths_agree(ds, values, plan.num_records),
        plan == planned(ds, plan.num_records, plan.version),
        0 <= v < ds.vars.len(),
        values[v].data_type == ds.vars[v].data_type,
        values[v].admitted(),
    ensures
        read_all(file_bytes(ds, values, plan), planned_header(ds, plan), v) == values[v].elems,
{
    let elems = values[v].elems;
    let c = ds.chunk_len(v) as int;
    assert(elems.len() == expected_len(ds, plan.num_records, v));
    if ds.is_record_var(v) {
        lemma_records_read_back(ds, values, plan, v, plan.num_records as int);
        assert(elems.subrange(0, plan.num_records * c) =~= elems);
    } else {
        lemma_chunk_reads_back(ds, values, plan, v, 0);
        assert(0 * c == 0 && (0 + 1) * c == c);
        assert(elems.subrange(0, c) =~= elems);
    }
}

/// What holds of the data set and of the data for which a file that is
/// written is read back as it was: the values of the attributes and of the
/// variables are values of their types, and no fixed dimension has size
/// zero (in a file a size of zero marks the unlimited dimension).
pub open spec fn reads_back(ds: DataSetView, data: Seq<VariableDataView>) -> bool {
    &&& ds.valid()
    &&& attrs_admitted(ds.attrs)
    &&& forall|v: int| 0 <= v < ds.vars.len() ==> attrs_admitted((#[trigger] ds.vars[v]).attrs)
    &&& forall|i: int| 0 <= i < data.len() ==> (#[trigger] data[i]).values.admitted()
    &&& forall|i: int|
        0 <= i < ds.dims.len() ==> (#[trigger] ds.dims[i]).is_unlimited() || ds.dims[i].size > 0
}

/// What a data set and the data supplied for its variables hold are values
/// of their types.
pub proof fn lemma_held_values_admitted(ds: DataSet, data: Seq<VariableData>)
    ensures
        attrs_admitted(ds@.attrs),
        forall|v: int| 0 <= v < ds@.vars.len() ==> attrs_admitted((#[trigger] ds@.vars[v]).attrs),
        forall|i: int| 0 <= i < data.len() ==> (#[trigger] views(data)[i]).values.admitted(),
{
    assert forall|i: int| 0 <= i < ds@.attrs.len() implies (#[trigger] ds@.attrs[i]).values.admitted() by {
        ds.attrs@[i].values.lemma_admitted();
    }
    assert forall|v: int| 0 <= v < ds@.vars.len() implies attrs_admitted(
        (#[trigger] ds@.vars[v]).attrs,
    ) by {
        let var = ds.vars@[v];
        assert forall|i: int| 0 <= i < var@.attrs.len() implies (#[trigger] var@.attrs[i]).values.admitted() by {
            var.attrs@[i].values.lemma_admitted();
        }
    }
    assert forall|i: int| 0 <= i < data.len() implies (#[trigger] views(data)[i]).values.admitted() by {
        data[i].values.lemma_admitted();
    }
}

/// The header of a file that was written can be written and read back.
pub proof fn lemma_planned_header_storable(ds: DataSetView, n: nat, request: Option<Version>)
    requires
        ds.valid(),
        attrs_admitted(ds.attrs),
        forall|v: int| 0 <= v < ds.vars.len() ==> attrs_admitted((#[trigger] ds.vars[v]).attrs),
        dims_storable(ds.dims, n),
        spec_plan(ds, n, request) is Ok,
    ensures
        storable(planned_header(ds, spec_plan(ds, n, request)->Ok_0)),
        spec_plan(ds, n, request)->Ok_0 == planned(ds, n, spec_plan(ds, n, request)->Ok_0.version),
        spec_plan(ds, n, request)->Ok_0.num_records == n,
{
    let plan = spec_plan(ds, n, request)->Ok_0;
    lemma_pow256_values();
    assert(begins_fit(plan.begins, plan.version)) by {
        assert forall|v: int| 0 <= v < plan.begins.len() implies #[trigger] plan.begins[v]
            < crate::primitive::pow256(plan.version.spec_offset_width()) by {
            assert(plan.begins[v] == ds.begin_of(plan.header_len, v));
            if plan.version == Version::Classic {
                assert(ds.begin_of(plan.header_len, v) <= FIELD_MAX);
            } else {
                assert(ds.begin_of(plan.header_len, v) <= OFFSET_MAX);
            }
        }
    }
}

/// Once the number of records is the size of the unlimited dimension, the
/// dimensions can be written and read back, where no fixed dimension has
/// size zero.
pub proof fn lemma_dims_storable(ds: DataSetView, n: nat)
    requires
        ds.valid(),
        forall|i: int|
            0 <= i < ds.dims.len() ==> (#[trigger] ds.dims[i]).is_unlimited() || ds.dims[i].size > 0,
    ensures
        dims_storable(ds.with_num_records(n).dims, n),
{
    lemma_find_unlimited(ds.dims);
    let after = ds.with_num_records(n).dims;
    assert forall|i: int| 0 <= i < after.len() implies if (#[trigger] after[i]).is_unlimited() {
        after[i].size == n
    } else {
        after[i].size > 0
    } by {
        if let Some(u) = find_unlimited(ds.dims) {
            if i != u {
                assert(after[i] == ds.dims[i]);
                assert(!(ds.dims[i].is_unlimited() && ds.dims[u].is_unlimited()));
            }
        } else {
            assert(after[i] == ds.dims[i]);
        }
    }
}

/// In a file that was written, the bytes of each record of each variable,
/// and of each fixed variable, lie between the end of the header and the end
/// of the file, where the header says that they start; and the bytes of two
/// variables, or of two records of one variable, have no byte in common.
pub proof fn lemma_written_chunks_apart(
    ds: DataSetView,
    values: Seq<Values>,
    plan: LayoutView,
    v1: int,
    r1: int,
    v2: int,
    r2: int,
)
    requires
        lengths_agree(ds, values, plan.num_records),
        plan == planned(ds, plan.num_records, plan.version),
        ds.is_chunk(plan.num_records, v1, r1),
        ds.is_chunk(plan.num_records, v2, r2),
        v1 != v2 || r1 != r2,
    ensures
        header_bytes(planned_header(ds, plan)).len() <= chunk_at(planned_header(ds, plan), v1, r1),
        chunk_at(planned_header(ds, plan), v1, r1) + ds.slot(v1) <= file_bytes(
            ds,
            values,
            plan,
        ).len(),
        chunk_at(planned_header(ds, plan), v1, r1) + ds.slot(v1) <= chunk_at(
            planned_header(ds, plan),
            v2,
            r2,
        ) || chunk_at(planned_header(ds, plan), v2, r2) + ds.slot(v2) <= chunk_at(
            planned_header(ds, plan),
            v1,
            r1,
        ),
{
    let h = planned_header(ds, plan);
    lemma_header_len(h);
    lemma_file_chunk(ds, values, plan, v1, r1);
    lemma_chunk_within(ds, plan.header_len, plan.num_records, v1, r1);
    crate::layout::lemma_chunks_disjoint(ds, plan.header_len, plan.num_records, v1, r1, v2, r2);
    assert(chunk_at(h, v1, r1) == ds.chunk_start(plan.header_len, v1, r1));
    assert(chunk_at(h, v2, r2) == ds.chunk_start(plan.header_len, v2, r2));
}

/// The values of every variable are values of its type.
pub open spec fn values_typed(ds: DataSetView, values: Seq<Values>) -> bool {
    &&& values.len() == ds.vars.len()
    &&& forall|v: int|
        0 <= v < ds.vars.len() ==> (#[trigger] values[v]).data_type == ds.vars[v].data_type
            && values[v].admitted()
}

/// A file that was written opens with its header.
proof fn lemma_file_opens_with_header(ds: DataSetView, values: Seq<Values>, plan: LayoutView)
    ensures
        holds_at(file_bytes(ds, values, plan), 0, header_bytes(planned_header(ds, plan))),
{
    let head = header_bytes(planned_header(ds, plan));
    let rest = fixed_part(ds, values, ds.vars.len() as int) + records_part(
        ds,
        values,
        plan.num_records as int,
    );
    assert(file_bytes(ds, values, plan) =~= head + rest);
    assert((head + rest).subrange(0, head.len() as int) =~= head);
}

/// A file that was written holds the elements of every variable where its
/// header says that they are.
proof fn lemma_file_in_bounds(ds: DataSetView, values: Seq<Values>, plan: LayoutView)
    requires
        lengths_agree(ds, values, plan.num_records),
        values_typed(ds, values),
        plan == planned(ds, plan.num_records, plan.version),
    ensures
        in_bounds(file_bytes(ds, values, plan).len(), planned_header(ds, plan)),
{
    let h = planned_header(ds, plan);
    let bytes = file_bytes(ds, values, plan);
    assert forall|v: int, r: int| #[trigger]
        ds.is_chunk(h.num_records, v, r) implies chunk_at(h, v, r) + ds.vsize_raw(v)
        <= bytes.len() by {
        assert(values[v].admitted());
        lemma_chunk_reads_back(ds, values, plan, v, r);
    }
}

/// A file that was written to a plan is read back: the bytes are a file,
/// whose header holds the data set with the version and the offsets of the
/// plan, and each variable is read back as the values that were written.
pub proof fn lemma_planned_file_reads_back(ds: DataSetView, values: Seq<Values>, plan: LayoutView)
    requires
        lengths_agree(ds, values, plan.num_records),
        values_typed(ds, values),
        plan == planned(ds, plan.num_records, plan.version),
        storable(planned_header(ds, plan)),
    ensures
        spec_open(file_bytes(ds, values, plan)) == Ok::<HeaderView, ReadErrorView>(
            planned_header(ds, plan),
        ),
        forall|v: int|
            0 <= v < ds.vars.len() ==> #[trigger] read_all(
                file_bytes(ds, values, plan),
                planned_header(ds, plan),
                v,
            ) == values[v].elems,
{
    let h = planned_header(ds, plan);
    let bytes = file_bytes(ds, values, plan);
    lemma_file_opens_with_header(ds, values, plan);
    lemma_header_round_trip(bytes, h);
    lemma_file_in_bounds(ds, values, plan);
    assert forall|v: int| 0 <= v < ds.vars.len() implies #[trigger] read_all(bytes, h, v)
        == values[v].elems by {
        assert(values[v].admitted());
        lemma_variable_reads_back(ds, values, plan, v);
    }
}

/// The data that a file is written from is data of the types of the
/// variables, of the lengths expected.
proof fn lemma_written_data_is_good(ds: DataSetView, data: Seq<VariableDataView>, n: nat)
    requires
        forall|i: int| 0 <= i < data.len() ==> (#[trigger] data[i]).values.admitted(),
        first_bad_data(ds, data, ds.vars.len() as int) is None,
        first_bad_length(ds, picked_values(ds, data), n, ds.vars.len() as int) is None,
    ensures
        lengths_agree(ds, picked_values(ds, data), n),
        values_typed(ds, picked_values(ds, data)),
{
    let values = picked_values(ds, data);
    assert forall|v: int| 0 <= v < ds.vars.len() implies (#[trigger] values[v]).elems.len()
        == expected_len(ds, n, v) && values[v].data_type == ds.vars[v].data_type
        && values[v].admitted() by {
        lemma_data_is_good(ds, data, n, v);
        crate::data_set::named::lemma_find_named(data, ds.vars[v].name);
    }
}

/// A file that was written is read back as it was: the bytes are a file,
/// its header holds the data set as it is once the file is written, with the
/// version and the offsets of the plan, and each variable is read back as
/// the data that was supplied for it.
pub proof fn lemma_written_file_reads_back(
    ds: DataSetView,
    data: Seq<VariableDataView>,
    request: Option<Version>,
)
    requires
        reads_back(ds, data),
        spec_write(ds, data, request) is Ok,
    ensures
        ({
            let (after, bytes) = spec_write(ds, data, request)->Ok_0;
            let n = derived_num_records(ds, picked_values(ds, data));
            &&& after == ds.with_num_records(n)
            &&& spec_plan(after, n, request) is Ok
            &&& spec_open(bytes) == Ok::<HeaderView, ReadErrorView>(
                planned_header(after, spec_plan(after, n, request)->Ok_0),
            )
            &&& forall|v: int|
                0 <= v < after.vars.len() ==> #[trigger] read_all(
                    bytes,
                    planned_header(after, spec_plan(after, n, request)->Ok_0),
                    v,
                ) == picked_values(ds, data)[v].elems
        }),
{
    let values = picked_values(ds, data);
    let n = derived_num_records(ds, values);
    let after = ds.with_num_records(n);
    lemma_with_num_records_valid(ds, n);
    lemma_with_num_records_twice(ds, n, n);
    lemma_dims_storable(ds, n);
    assert(spec_emit(after, values, n, request) is Ok);
    assert(spec_plan(after, n, request) is Ok);
    let plan = spec_plan(after, n, request)->Ok_0;
    lemma_planned_header_storable(after, n, request);
    assert(picked_values(after, data) =~= values);
    lemma_same_data(ds, after, data, ds.vars.len() as int);
    lemma_written_data_is_good(after, data, n);
    lemma_planned_file_reads_back(after, values, plan);
}

/// Whether data is bad depends on the variables alone.
proof fn lemma_same_data(a: DataSetView, b: DataSetView, data: Seq<VariableDataView>, n: int)
    requires
        a.vars == b.vars,
    ensures
        first_bad_data(a, data, n) == first_bad_data(b, data, n),
    decreases n,
{
    if n > 0 {
        lemma_same_data(a, b, data, n - 1);
    }
}

} // verus!
