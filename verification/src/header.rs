//! The header of a file: how a data set and the offsets of its variables
//! stand in bytes.
pub mod laws;
pub mod parse;

use crate::data_set::attribute::{Attribute, AttributeView};
use crate::data_set::dimension::{Dimension, DimensionView};
use crate::data_set::model::{var_valid, DataSetView};
use crate::data_set::named::{names_valid, views, Named};
use crate::data_set::variable::{ids_view, Variable, VariableView};
use crate::data_set::DataSet;
use crate::data_vector::{elems_bytes, lemma_elems_bytes_len, DataVector, Values};
use crate::error::ReadError;
use crate::layout::{VarSize, Version, FIELD_MAX};
use crate::name_string::valid_name;
use crate::primitive::{
    be_bytes, lemma_pow256_values, padding, padding_of, pow256, put_u32, put_u64, put_zeros, zeros,
};
use vstd::prelude::*;
use vstd::string::*;
use vstd::utf8::*;

verus! {

/// What a header says: the version, the number of records, the data set, and
/// where the data of each variable begins.
pub ghost struct HeaderView {
    pub version: Version,
    pub num_records: nat,
    pub data_set: DataSetView,
    pub begins: Seq<nat>,
}

/// The tag that opens the list of dimensions.
pub const DIMENSION_TAG: u32 = 0x0a;

/// The tag that opens the list of variables.
pub const VARIABLE_TAG: u32 = 0x0b;

/// The tag that opens a list of attributes.
pub const ATTRIBUTE_TAG: u32 = 0x0c;

/// A number in a four-byte field.
pub open spec fn u32_bytes(v: nat) -> Seq<u8> {
    be_bytes(v, 4)
}

/// Bytes followed by zero bytes up to a multiple of four.
pub open spec fn padded(b: Seq<u8>) -> Seq<u8> {
    b + zeros(padding(b.len()))
}

/// A name: the number of its bytes, then its bytes in UTF-8, padded.
pub open spec fn name_bytes(name: Seq<char>) -> Seq<u8> {
    u32_bytes(encode_utf8(name).len()) + padded(encode_utf8(name))
}

/// Typed values: the tag of the type, the number of values, then the values,
/// padded.
pub open spec fn values_bytes(v: Values) -> Seq<u8> {
    u32_bytes(v.data_type.spec_code()) + u32_bytes(v.elems.len()) + padded(
        elems_bytes(v.data_type, v.elems),
    )
}

/// An attribute: its name, then its values.
pub open spec fn attr_bytes(a: AttributeView) -> Seq<u8> {
    name_bytes(a.name) + values_bytes(a.values)
}

/// Attributes, one after the other.
pub open spec fn attrs_bytes(attrs: Seq<AttributeView>) -> Seq<u8>
    decreases attrs.len(),
{
    if attrs.len() == 0 {
        Seq::empty()
    } else {
        attrs_bytes(attrs.drop_last()) + attr_bytes(attrs.last())
    }
}

/// What opens a list of `count` entries: the tag and the count, or eight zero
/// bytes where the list is empty.
pub open spec fn list_head(tag: nat, count: nat) -> Seq<u8> {
    if count == 0 {
        zeros(8)
    } else {
        u32_bytes(tag) + u32_bytes(count)
    }
}

/// A list of attributes.
pub open spec fn attr_list_bytes(attrs: Seq<AttributeView>) -> Seq<u8> {
    list_head(ATTRIBUTE_TAG as nat, attrs.len()) + attrs_bytes(attrs)
}

/// The size that the header gives for a dimension: zero stands for the
/// unlimited dimension.
pub open spec fn dim_size_field(d: DimensionView) -> nat {
    if d.is_unlimited() {
        0
    } else {
        d.size
    }
}

/// A dimension: its name, then its size.
pub open spec fn dim_bytes(d: DimensionView) -> Seq<u8> {
    name_bytes(d.name) + u32_bytes(dim_size_field(d))
}

/// Dimensions, one after the other.
pub open spec fn dims_bytes(dims: Seq<DimensionView>) -> Seq<u8>
    decreases dims.len(),
{
    if dims.len() == 0 {
        Seq::empty()
    } else {
        dims_bytes(dims.drop_last()) + dim_bytes(dims.last())
    }
}

/// The list of dimensions.
pub open spec fn dim_list_bytes(dims: Seq<DimensionView>) -> Seq<u8> {
    list_head(DIMENSION_TAG as nat, dims.len()) + dims_bytes(dims)
}

/// A shape: the index of each dimension.
pub open spec fn ids_bytes(ids: Seq<int>) -> Seq<u8>
    decreases ids.len(),
{
    if ids.len() == 0 {
        Seq::empty()
    } else {
        ids_bytes(ids.drop_last()) + u32_bytes(ids.last() as nat)
    }
}

/// A variable: its name, its shape, its attributes, the tag of its type, its
/// size, and where its data begins.
pub open spec fn var_bytes(var: VariableView, vsize: nat, begin: nat, version: Version) -> Seq<u8> {
    name_bytes(var.name) + u32_bytes(var.dim_ids.len()) + ids_bytes(var.dim_ids) + attr_list_bytes(
        var.attrs,
    ) + u32_bytes(var.data_type.spec_code()) + u32_bytes(vsize) + be_bytes(
        begin,
        version.spec_offset_width(),
    )
}

/// The first `n` variables of a data set, one after the other.
pub open spec fn vars_bytes(ds: DataSetView, begins: Seq<nat>, version: Version, n: int) -> Seq<u8>
    decreases n,
{
    if n <= 0 {
        Seq::empty()
    } else {
        vars_bytes(ds, begins, version, n - 1) + var_bytes(
            ds.vars[n - 1],
            ds.vsize(n - 1),
            begins[n - 1],
            version,
        )
    }
}

/// The list of variables.
pub open spec fn var_list_bytes(ds: DataSetView, begins: Seq<nat>, version: Version) -> Seq<u8> {
    list_head(VARIABLE_TAG as nat, ds.vars.len()) + vars_bytes(
        ds,
        begins,
        version,
        ds.vars.len() as int,
    )
}

/// The four bytes that open a file: `CDF` and the version.
pub open spec fn magic_bytes(version: Version) -> Seq<u8> {
    seq![0x43u8, 0x44u8, 0x46u8, version.spec_code()]
}

/// The header.
pub open spec fn header_bytes(h: HeaderView) -> Seq<u8> {
    magic_bytes(h.version) + u32_bytes(h.num_records) + dim_list_bytes(h.data_set.dims)
        + attr_list_bytes(h.data_set.attrs) + var_list_bytes(h.data_set, h.begins, h.version)
}

/// The count of the attributes, and of the values of each, fits its field.
pub open spec fn attrs_fit(attrs: Seq<AttributeView>) -> bool {
    &&& attrs.len() <= FIELD_MAX
    &&& forall|i: int| 0 <= i < attrs.len() ==> (#[trigger] attrs[i]).values.elems.len() <= FIELD_MAX
}

/// Every count and every size of the data set fits the four-byte field that
/// the header has for it.
pub open spec fn header_fits(ds: DataSetView, num_records: nat) -> bool {
    &&& num_records <= FIELD_MAX
    &&& ds.dims.len() <= FIELD_MAX
    &&& forall|i: int| 0 <= i < ds.dims.len() ==> dim_size_field(#[trigger] ds.dims[i]) <= FIELD_MAX
    &&& attrs_fit(ds.attrs)
    &&& ds.vars.len() <= FIELD_MAX
    &&& forall|v: int|
        0 <= v < ds.vars.len() ==> (#[trigger] ds.vars[v]).dim_ids.len() <= FIELD_MAX && attrs_fit(
            ds.vars[v].attrs,
        )
    &&& ds.sizes_fit()
}

/// Every offset fits the field that the version has for it.
pub open spec fn begins_fit(begins: Seq<nat>, version: Version) -> bool {
    forall|v: int| 0 <= v < begins.len() ==> #[trigger] begins[v] < pow256(version.spec_offset_width())
}

/// Offsets as natural numbers.
pub open spec fn begins_view(begins: Seq<u64>) -> Seq<nat> {
    Seq::new(begins.len(), |v: int| begins[v] as nat)
}

/// Appends `bytes`, then zero bytes up to a multiple of four.
fn put_padded(out: &mut Vec<u8>, bytes: &[u8])
    ensures
        final(out)@ == old(out)@ + padded(bytes@),
{
    out.extend_from_slice(bytes);
    assert(out@ =~= old(out)@ + bytes@);
    put_zeros(out, padding_of(bytes.len()));
    assert(out@ =~= old(out)@ + padded(bytes@));
}

/// Appends a name.
fn put_name(out: &mut Vec<u8>, name: &str)
    requires
        valid_name(name@),
    ensures
        final(out)@ == old(out)@ + name_bytes(name@),
{
    let bytes = name.as_bytes();
    put_u32(out, bytes.len() as u32);
    put_padded(out, bytes);
    assert(out@ =~= old(out)@ + name_bytes(name@));
}

/// Appends typed values.
fn put_values(out: &mut Vec<u8>, values: &DataVector)
    requires
        values@.elems.len() <= FIELD_MAX,
    ensures
        final(out)@ == old(out)@ + values_bytes(values@),
{
    put_u32(out, values.data_type().code());
    put_u32(out, values.len() as u32);
    let start: usize = out.len();
    values.encode(out);
    proof {
        lemma_elems_bytes_len(values@.data_type, values@.elems);
    }
    let len: usize = out.len() - start;
    put_zeros(out, padding_of(len));
    assert(out@ =~= old(out)@ + values_bytes(values@));
}

/// Appends what opens a list of `count` entries.
fn put_list_head(out: &mut Vec<u8>, tag: u32, count: usize)
    requires
        count <= FIELD_MAX,
    ensures
        final(out)@ == old(out)@ + list_head(tag as nat, count as nat),
{
    if count == 0 {
        put_zeros(out, 8);
    } else {
        put_u32(out, tag);
        put_u32(out, count as u32);
        assert(out@ =~= old(out)@ + list_head(tag as nat, count as nat));
    }
}

/// Appends a list of attributes.
fn put_attr_list(out: &mut Vec<u8>, attrs: &Vec<Attribute>)
    requires
        attrs_fit(views(attrs@)),
        names_valid(views(attrs@)),
    ensures
        final(out)@ == old(out)@ + attr_list_bytes(views(attrs@)),
{
    let n: usize = attrs.len();
    put_list_head(out, ATTRIBUTE_TAG, n);
    let ghost head = out@;
    let ghost all = views(attrs@);
    let mut i: usize = 0;
    assert(all.take(0) =~= Seq::empty());
    assert(out@ =~= head + attrs_bytes(all.take(0)));
    while i < n
        invariant
            i <= n,
            n == attrs@.len(),
            all == views(attrs@),
            attrs_fit(all),
            names_valid(all),
            out@ == head + attrs_bytes(all.take(i as int)),
        decreases n - i,
    {
        let attr = &attrs[i];
        assert(all[i as int] == attr@);
        assert(valid_name(all[i as int].name_of()));
        let ghost before = out@;
        put_name(out, attr.name.as_str());
        put_values(out, &attr.values);
        proof {
            assert(all.take(i + 1).drop_last() =~= all.take(i as int));
            assert(all.take(i + 1).last() == all[i as int]);
            assert(out@ =~= before + attr_bytes(attr@));
            assert(out@ =~= head + attrs_bytes(all.take(i + 1)));
        }
        i += 1;
    }
    assert(all.take(n as int) =~= all);
    assert(out@ =~= old(out)@ + attr_list_bytes(all));
}

/// Appends the list of dimensions.
fn put_dim_list(out: &mut Vec<u8>, dims: &Vec<Dimension>)
    requires
        views(dims@).len() <= FIELD_MAX,
        forall|i: int|
            0 <= i < dims@.len() ==> dim_size_field(#[trigger] views(dims@)[i]) <= FIELD_MAX,
        names_valid(views(dims@)),
    ensures
        final(out)@ == old(out)@ + dim_list_bytes(views(dims@)),
{
    let n: usize = dims.len();
    put_list_head(out, DIMENSION_TAG, n);
    let ghost head = out@;
    let ghost all = views(dims@);
    let mut i: usize = 0;
    assert(all.take(0) =~= Seq::empty());
    assert(out@ =~= head + dims_bytes(all.take(0)));
    while i < n
        invariant
            i <= n,
            n == dims@.len(),
            all == views(dims@),
            forall|j: int| 0 <= j < dims@.len() ==> dim_size_field(#[trigger] all[j]) <= FIELD_MAX,
            names_valid(all),
            out@ == head + dims_bytes(all.take(i as int)),
        decreases n - i,
    {
        let dim = &dims[i];
        assert(all[i as int] == dim@);
        assert(valid_name(all[i as int].name_of()));
        assert(dim_size_field(all[i as int]) <= FIELD_MAX);
        let ghost before = out@;
        put_name(out, dim.name.as_str());
        let size: u32 = if dim.is_unlimited() {
            0
        } else {
            dim.size() as u32
        };
        put_u32(out, size);
        proof {
            assert(all.take(i + 1).drop_last() =~= all.take(i as int));
            assert(all.take(i + 1).last() == all[i as int]);
            assert(out@ =~= before + dim_bytes(dim@));
            assert(out@ =~= head + dims_bytes(all.take(i + 1)));
        }
        i += 1;
    }
    assert(all.take(n as int) =~= all);
    assert(out@ =~= old(out)@ + dim_list_bytes(all));
}

/// Appends a shape.
fn put_ids(out: &mut Vec<u8>, ids: &Vec<usize>)
    requires
        forall|k: int| 0 <= k < ids@.len() ==> #[trigger] ids@[k] <= FIELD_MAX,
    ensures
        final(out)@ == old(out)@ + ids_bytes(ids_view(ids@)),
{
    let n: usize = ids.len();
    let ghost all = ids_view(ids@);
    let mut k: usize = 0;
    assert(all.take(0) =~= Seq::empty());
    assert(out@ =~= old(out)@ + ids_bytes(all.take(0)));
    while k < n
        invariant
            k <= n,
            n == ids@.len(),
            all == ids_view(ids@),
            forall|j: int| 0 <= j < ids@.len() ==> #[trigger] ids@[j] <= FIELD_MAX,
            out@ == old(out)@ + ids_bytes(all.take(k as int)),
        decreases n - k,
    {
        let ghost before = out@;
        put_u32(out, ids[k] as u32);
        proof {
            assert(all.take(k + 1).drop_last() =~= all.take(k as int));
            assert(all.take(k + 1).last() == all[k as int]);
            assert(out@ =~= old(out)@ + ids_bytes(all.take(k + 1)));
        }
        k += 1;
    }
    assert(all.take(n as int) =~= all);
}

/// Appends the offset of a variable, in the width of the version.
fn put_begin(out: &mut Vec<u8>, begin: u64, version: Version)
    requires
        begin < pow256(version.spec_offset_width()),
    ensures
        final(out)@ == old(out)@ + be_bytes(begin as nat, version.spec_offset_width()),
{
    proof {
        lemma_pow256_values();
    }
    match version {
        Version::Classic => put_u32(out, begin as u32),
        Version::Offset64Bit => put_u64(out, begin),
    }
}

/// Appends a variable.
fn put_var(
    out: &mut Vec<u8>,
    var: &Variable,
    vsize: u32,
    begin: u64,
    version: Version,
    Ghost(num_dims): Ghost<nat>,
)
    requires
        valid_name(var@.name),
        var@.dim_ids.len() <= FIELD_MAX,
        num_dims <= FIELD_MAX,
        forall|k: int| 0 <= k < var@.dim_ids.len() ==> 0 <= #[trigger] var@.dim_ids[k] < num_dims,
        attrs_fit(var@.attrs),
        names_valid(var@.attrs),
        begin < pow256(version.spec_offset_width()),
    ensures
        final(out)@ == old(out)@ + var_bytes(var@, vsize as nat, begin as nat, version),
{
    put_name(out, var.name.as_str());
    let ghost s1 = out@;
    put_u32(out, var.dim_ids.len() as u32);
    let ghost s2 = out@;
    assert forall|k: int| 0 <= k < var.dim_ids@.len() implies #[trigger] var.dim_ids@[k]
        <= FIELD_MAX by {
        assert(var@.dim_ids[k] == var.dim_ids@[k] as int);
    }
    put_ids(out, &var.dim_ids);
    let ghost s3 = out@;
    put_attr_list(out, &var.attrs);
    let ghost s4 = out@;
    put_u32(out, var.data_type.code());
    let ghost s5 = out@;
    put_u32(out, vsize);
    let ghost s6 = out@;
    put_begin(out, begin, version);
    proof {
        let a = name_bytes(var@.name);
        let b = u32_bytes(var@.dim_ids.len());
        let c = ids_bytes(var@.dim_ids);
        let d = attr_list_bytes(var@.attrs);
        let e = u32_bytes(var@.data_type.spec_code());
        let f = u32_bytes(vsize as nat);
        let g = be_bytes(begin as nat, version.spec_offset_width());
        assert(s2 =~= old(out)@ + (a + b));
        assert(s3 =~= old(out)@ + (a + b + c));
        assert(s4 =~= old(out)@ + (a + b + c + d));
        assert(s5 =~= old(out)@ + (a + b + c + d + e));
        assert(s6 =~= old(out)@ + (a + b + c + d + e + f));
        assert(out@ =~= old(out)@ + (a + b + c + d + e + f + g));
    }
}

/// Whether the count of the attributes, and of the values of each, fits.
fn check_attrs_fit(attrs: &Vec<Attribute>) -> (r: bool)
    ensures
        r == attrs_fit(views(attrs@)),
{
    let n: usize = attrs.len();
    if n as u64 > FIELD_MAX {
        return false;
    }
    let mut i: usize = 0;
    while i < n
        invariant
            i <= n,
            n == attrs@.len(),
            n <= FIELD_MAX,
            forall|j: int|
                0 <= j < i ==> (#[trigger] views(attrs@)[j]).values.elems.len() <= FIELD_MAX,
        decreases n - i,
    {
        if attrs[i].values.len() as u64 > FIELD_MAX {
            assert(views(attrs@)[i as int].values.elems.len() > FIELD_MAX);
            return false;
        }
        i += 1;
    }
    true
}

/// Whether every count and every size fits its field.
pub(crate) fn check_header_fits(ds: &DataSet, sizes: &Vec<VarSize>, num_records: u64) -> (r: bool)
    requires
        sizes@.len() == ds@.vars.len(),
        forall|v: int| 0 <= v < sizes@.len() ==> (#[trigger] sizes@[v]).describes(ds@, v),
    ensures
        r == header_fits(ds@, num_records as nat),
{
    if num_records > FIELD_MAX || ds.dims.len() as u64 > FIELD_MAX || ds.vars.len() as u64
        > FIELD_MAX {
        return false;
    }
    let n: usize = ds.dims.len();
    let mut i: usize = 0;
    while i < n
        invariant
            i <= n,
            n == ds.dims@.len(),
            forall|j: int| 0 <= j < i ==> dim_size_field(#[trigger] ds@.dims[j]) <= FIELD_MAX,
        decreases n - i,
    {
        if !ds.dims[i].is_unlimited() && ds.dims[i].size() as u64 > FIELD_MAX {
            assert(dim_size_field(ds@.dims[i as int]) > FIELD_MAX);
            return false;
        }
        i += 1;
    }
    if !check_attrs_fit(&ds.attrs) {
        return false;
    }
    let m: usize = ds.vars.len();
    let mut v: usize = 0;
    while v < m
        invariant
            v <= m,
            m == ds.vars@.len(),
            sizes@.len() == m,
            forall|j: int| 0 <= j < sizes@.len() ==> (#[trigger] sizes@[j]).describes(ds@, j),
            forall|j: int|
                0 <= j < v ==> (#[trigger] ds@.vars[j]).dim_ids.len() <= FIELD_MAX && attrs_fit(
                    ds@.vars[j].attrs,
                ),
            forall|j: int| 0 <= j < v ==> #[trigger] ds@.vsize(j) <= FIELD_MAX,
        decreases m - v,
    {
        let var = &ds.vars[v];
        assert(ds@.vars[v as int] == var@);
        assert(sizes@[v as int].describes(ds@, v as int));
        if var.dim_ids.len() as u64 > FIELD_MAX || !check_attrs_fit(&var.attrs) {
            return false;
        }
        match sizes[v].padded {
            Some(p) => {
                if p > FIELD_MAX {
                    assert(ds@.vsize(v as int) > FIELD_MAX);
                    return false;
                }
            },
            None => {
                assert(ds@.vsize(v as int) > FIELD_MAX);
                return false;
            },
        }
        v += 1;
    }
    true
}

/// The bytes of the header of a file of that version, with that many
/// records, in which the data of each variable begins where `begins` says.
pub(crate) fn encode_header(
    ds: &DataSet,
    sizes: &Vec<VarSize>,
    num_records: u64,
    version: Version,
    begins: &Vec<u64>,
) -> (out: Vec<u8>)
    requires
        header_fits(ds@, num_records as nat),
        sizes@.len() == ds@.vars.len(),
        forall|v: int| 0 <= v < sizes@.len() ==> (#[trigger] sizes@[v]).describes(ds@, v),
        begins@.len() == ds@.vars.len(),
        begins_fit(begins_view(begins@), version),
    ensures
        out@ == header_bytes(
            HeaderView {
                version,
                num_records: num_records as nat,
                data_set: ds@,
                begins: begins_view(begins@),
            },
        ),
{
    proof {
        use_type_invariant(ds);
    }
    let mut out: Vec<u8> = Vec::new();
    out.push(0x43u8);
    out.push(0x44u8);
    out.push(0x46u8);
    out.push(version.code());
    assert(out@ =~= magic_bytes(version));
    put_u32(&mut out, num_records as u32);
    put_dim_list(&mut out, &ds.dims);
    put_attr_list(&mut out, &ds.attrs);
    let n: usize = ds.vars.len();
    put_list_head(&mut out, VARIABLE_TAG, n);
    let ghost head = out@;
    let ghost bv = begins_view(begins@);
    let mut v: usize = 0;
    assert(out@ =~= head + vars_bytes(ds@, bv, version, 0));
    while v < n
        invariant
            v <= n,
            n == ds.vars@.len(),
            ds@.valid(),
            header_fits(ds@, num_records as nat),
            sizes@.len() == n,
            forall|j: int| 0 <= j < sizes@.len() ==> (#[trigger] sizes@[j]).describes(ds@, j),
            begins@.len() == n,
            bv == begins_view(begins@),
            begins_fit(bv, version),
            out@ == head + vars_bytes(ds@, bv, version, v as int),
        decreases n - v,
    {
        let var = &ds.vars[v];
        let ghost vv = ds@.vars[v as int];
        assert(vv == var@);
        assert(var_valid(ds@.dims, vv));
        assert(valid_name(vv.name_of()));
        assert(sizes@[v as int].describes(ds@, v as int));
        assert(ds@.vsize(v as int) <= FIELD_MAX);
        assert(bv[v as int] < pow256(version.spec_offset_width()));
        let vsize: u64 = sizes[v].padded.unwrap();
        put_var(&mut out, var, vsize as u32, begins[v], version, Ghost(ds@.dims.len()));
        v += 1;
    }
    assert(out@ =~= header_bytes(
        HeaderView { version, num_records: num_records as nat, data_set: ds@, begins: bv },
    ));
    out
}

/// The header with every offset zero: what is written to learn how long the
/// header is.
pub open spec fn sizing_header(ds: DataSetView, num_records: nat, version: Version) -> HeaderView {
    HeaderView {
        version,
        num_records,
        data_set: ds,
        begins: Seq::new(ds.vars.len(), |v: int| 0nat),
    }
}

/// The length of the header of a file of that version that holds the data
/// set.
pub open spec fn header_len(ds: DataSetView, num_records: nat, version: Version) -> nat {
    header_bytes(sizing_header(ds, num_records, version)).len()
}

proof fn lemma_vars_bytes_len(
    ds: DataSetView,
    b1: Seq<nat>,
    b2: Seq<nat>,
    version: Version,
    n: int,
)
    ensures
        vars_bytes(ds, b1, version, n).len() == vars_bytes(ds, b2, version, n).len(),
    decreases n,
{
    if n > 0 {
        lemma_vars_bytes_len(ds, b1, b2, version, n - 1);
        crate::primitive::lemma_be_bytes_len(b1[n - 1], version.spec_offset_width());
        crate::primitive::lemma_be_bytes_len(b2[n - 1], version.spec_offset_width());
    }
}

/// The length of a header does not depend on the offsets that it holds, nor
/// on the number of records.
pub proof fn lemma_header_len(h: HeaderView)
    ensures
        header_bytes(h).len() == header_len(h.data_set, h.num_records, h.version),
        header_len(h.data_set, h.num_records, h.version) == header_len(h.data_set, 0, h.version),
{
    let z = sizing_header(h.data_set, h.num_records, h.version);
    let z0 = sizing_header(h.data_set, 0, h.version);
    lemma_vars_bytes_len(h.data_set, h.begins, z.begins, h.version, h.data_set.vars.len() as int);
    crate::primitive::lemma_be_bytes_len(h.num_records, 4);
    crate::primitive::lemma_be_bytes_len(0, 4);
    assert(z0.begins == z.begins);
}

/// The header of a file, as it was read.
#[derive(Debug)]
pub struct Header {
    pub(crate) version: Version,
    pub(crate) num_records: u32,
    pub(crate) data_set: DataSet,
    pub(crate) begins: Vec<u64>,
    pub(crate) len: usize,
}

impl View for Header {
    type V = HeaderView;

    open(crate) spec fn view(&self) -> HeaderView {
        HeaderView {
            version: self.version,
            num_records: self.num_records as nat,
            data_set: self.data_set@,
            begins: begins_view(self.begins@),
        }
    }
}

impl Header {
    /// The number of bytes that the header takes.
    pub open(crate) spec fn spec_len(self) -> nat {
        self.len as nat
    }

    /// Reads the header that the bytes open with.
    ///
    /// What is read is what `parse_header` defines, and every way in which
    /// the bytes can fail to be a header is told apart.
    pub fn parse(bytes: &[u8]) -> (r: Result<Header, ReadError>)
        ensures
            match parse::parse_header(bytes@) {
                Ok((h, p)) => r is Ok && r.unwrap()@ == h && r.unwrap().spec_len() == p,
                Err(e) => r is Err && r.unwrap_err()@ == e,
            },
    {
        proof {
            laws::lemma_parse_header_valid(bytes@);
        }
        let version = match parse::read_magic(bytes) {
            Err(e) => {
                return Err(e);
            },
            Ok(v) => v,
        };
        let (field, pos1) = match parse::read_u32(bytes, 4) {
            Err(e) => {
                return Err(e);
            },
            Ok(x) => x,
        };
        let num_records: u32 = if field == 0xffff_ffff {
            0
        } else {
            field
        };
        let (dims, pos2) = match parse::read_dim_list(bytes, pos1, num_records) {
            Err(e) => {
                return Err(e);
            },
            Ok(x) => x,
        };
        let (attrs, pos3) = match parse::read_attr_list(bytes, pos2) {
            Err(e) => {
                return Err(e);
            },
            Ok(x) => x,
        };
        let (vars, begins, pos4) = match parse::read_var_list(bytes, pos3, &dims, version) {
            Err(e) => {
                return Err(e);
            },
            Ok(x) => x,
        };
        let data_set = DataSet { dims, attrs, vars };
        Ok(Header { version, num_records, data_set, begins, len: pos4 })
    }

    /// The version of the file.
    pub fn version(&self) -> (r: Version)
        ensures
            r == self@.version,
    {
        self.version
    }

    /// The number of records of the file.
    pub fn num_records(&self) -> (r: usize)
        ensures
            r == self@.num_records,
    {
        self.num_records as usize
    }

    /// The data set that the header describes.
    pub fn data_set(&self) -> (r: &DataSet)
        ensures
            r@ == self@.data_set,
    {
        &self.data_set
    }

    /// Where the data of the variable at `index` begins, if there is such a
    /// variable.
    pub fn begin_at(&self, index: usize) -> (r: Option<u64>)
        ensures
            index < self@.begins.len() ==> r == Some(self@.begins[index as int] as u64),
            index >= self@.begins.len() ==> r is None,
    {
        if index < self.begins.len() {
            Some(self.begins[index])
        } else {
            None
        }
    }

    /// The number of bytes that the header takes.
    pub fn len(&self) -> (r: usize)
        ensures
            r == self.spec_len(),
    {
        self.len
    }
}

} // verus!
