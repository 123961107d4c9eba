//! What holds of the header codec: what is read is a data set, and a header
//! that was written is read back as it was.
use crate::data_set::attribute::AttributeView;
use crate::data_set::dimension::DimensionView;
use crate::data_set::model::{
    at_most_one_unlimited, find_unlimited, lemma_find_unlimited, lemma_unlimited_uses, shape_valid,
    unlimited_uses, var_valid, DataSetView,
};
use crate::data_set::named::{
    find_named, lemma_find_named, lemma_push_named, names_distinct, names_valid, Named,
};
use crate::data_set::variable::VariableView;
use crate::data_vector::{elems_bytes, lemma_elems_bytes_len, lemma_elems_round_trip, Values};
use crate::header::parse::{
    parse_attr, parse_attr_list, parse_attrs, parse_begin, parse_dim, parse_dim_list, parse_dims,
    parse_header, parse_ids, parse_list_head, parse_magic, parse_name, parse_u32, parse_values,
    parse_var, parse_var_list, parse_var_rest, parse_vars, records_of_field,
};
use crate::header::{
    attr_bytes, attr_list_bytes, attrs_bytes, attrs_fit, begins_fit, dim_bytes, dim_list_bytes,
    dim_size_field, dims_bytes, header_bytes, header_fits, ids_bytes, list_head, magic_bytes,
    name_bytes, padded, u32_bytes, values_bytes, var_bytes, var_list_bytes, vars_bytes, HeaderView,
    ATTRIBUTE_TAG, DIMENSION_TAG, VARIABLE_TAG,
};
use crate::layout::{Version, FIELD_MAX};
use crate::name_string::valid_name;
use crate::error::ReadErrorView;
use crate::primitive::{
    be_bytes, lemma_be_bytes_len, lemma_be_value_of_bytes, lemma_pow256_values, lemma_round_up_4,
    padding, pow256, zeros,
};
use vstd::prelude::*;
use vstd::utf8::*;

verus! {

/// The bytes `t` stand in `s` from `pos` on.
pub open spec fn holds_at(s: Seq<u8>, pos: int, t: Seq<u8>) -> bool {
    &&& 0 <= pos
    &&& pos + t.len() <= s.len()
    &&& s.subrange(pos, pos + t.len()) == t
}

/// Where two runs of bytes stand one after the other, each stands in its
/// place.
pub proof fn lemma_holds_at_concat(s: Seq<u8>, pos: int, a: Seq<u8>, b: Seq<u8>)
    requires
        holds_at(s, pos, a + b),
    ensures
        holds_at(s, pos, a),
        holds_at(s, pos + a.len(), b),
{
    let whole = s.subrange(pos, pos + (a + b).len());
    assert(s.subrange(pos, pos + a.len()) =~= whole.subrange(0, a.len() as int));
    assert(whole.subrange(0, a.len() as int) =~= a);
    assert(s.subrange(pos + a.len(), pos + a.len() + b.len()) =~= whole.subrange(
        a.len() as int,
        (a + b).len() as int,
    ));
    assert(whole.subrange(a.len() as int, (a + b).len() as int) =~= b);
}

/// A name that is read is a valid name.
pub proof fn lemma_parse_name_valid(s: Seq<u8>, pos: int)
    ensures
        parse_name(s, pos) matches Ok((name, p)) ==> valid_name(name) && pos <= p <= s.len(),
{
    if let Ok((name, p)) = parse_name(s, pos) {
        let n = parse_u32(s, pos)->Ok_0.0;
        let bytes = s.subrange(pos + 4, pos + 4 + n);
        decode_utf8_encode_utf8(bytes);
    }
}

/// Attributes that are read have valid, distinct names.
pub proof fn lemma_parse_attrs_valid(s: Seq<u8>, pos: int, count: nat)
    ensures
        parse_attrs(s, pos, count) matches Ok((attrs, p)) ==> names_valid(attrs) && names_distinct(
            attrs,
        ) && attrs.len() == count,
    decreases count,
{
    if count > 0 {
        lemma_parse_attrs_valid(s, pos, (count - 1) as nat);
        if let Ok((attrs, p)) = parse_attrs(s, pos, (count - 1) as nat) {
            lemma_parse_name_valid(s, p);
            if let Ok((a, q)) = parse_attr(s, p) {
                if find_named(attrs, a.name) is None {
                    lemma_push_named(attrs, a);
                }
            }
        }
    }
}

/// What holds of the dimensions that are read: valid, distinct names, at
/// most one unlimited dimension, whose size is the number of records, and no
/// fixed dimension of size zero.
pub proof fn lemma_parse_dims_valid(s: Seq<u8>, pos: int, count: nat, num_records: nat)
    ensures
        parse_dims(s, pos, count, num_records) matches Ok((dims, p)) ==> {
            &&& names_valid(dims)
            &&& names_distinct(dims)
            &&& at_most_one_unlimited(dims)
            &&& dims.len() == count
            &&& forall|i: int|
                0 <= i < dims.len() ==> if (#[trigger] dims[i]).is_unlimited() {
                    dims[i].size == num_records
                } else {
                    dims[i].size > 0
                }
        },
    decreases count,
{
    if count > 0 {
        lemma_parse_dims_valid(s, pos, (count - 1) as nat, num_records);
        if let Ok((dims, p)) = parse_dims(s, pos, (count - 1) as nat, num_records) {
            lemma_parse_name_valid(s, p);
            lemma_find_unlimited(dims);
            if let Ok((d, q)) = parse_dim(s, p, num_records) {
                if let Ok((after, _)) = parse_dims(s, pos, count, num_records) {
                    lemma_push_named(dims, d);
                    assert forall|i: int, j: int| 0 <= i < j < after.len() implies !((
                    #[trigger] after[i]).is_unlimited() && (#[trigger] after[j]).is_unlimited()) by {
                        assert(after[i] == dims[i]);
                        if j < dims.len() {
                            assert(after[j] == dims[j]);
                        }
                    }
                    assert forall|i: int| 0 <= i < after.len() implies if (
                    #[trigger] after[i]).is_unlimited() {
                        after[i].size == num_records
                    } else {
                        after[i].size > 0
                    } by {
                        if i < dims.len() {
                            assert(after[i] == dims[i]);
                        }
                    }
                }
            }
        }
    }
}

/// A shape that is read holds indices of dimensions.
pub proof fn lemma_parse_ids_valid(s: Seq<u8>, pos: int, count: nat, num_dims: nat)
    ensures
        parse_ids(s, pos, count, num_dims) matches Ok((ids, p)) ==> ids.len() == count && forall|
            k: int,
        |
            0 <= k < ids.len() ==> 0 <= #[trigger] ids[k] < num_dims,
    decreases count,
{
    if count > 0 {
        lemma_parse_ids_valid(s, pos, (count - 1) as nat, num_dims);
        if let Ok((ids, p)) = parse_ids(s, pos, (count - 1) as nat, num_dims) {
            if let Ok((after, _)) = parse_ids(s, pos, count, num_dims) {
                assert forall|k: int| 0 <= k < after.len() implies 0 <= #[trigger] after[k]
                    < num_dims by {
                    if k < ids.len() {
                        assert(after[k] == ids[k]);
                    }
                }
            }
        }
    }
}

/// A variable that is read has a valid name and is a variable over the
/// dimensions.
pub proof fn lemma_parse_var_valid(s: Seq<u8>, pos: int, dims: Seq<DimensionView>, version: Version)
    ensures
        parse_var(s, pos, dims, version) matches Ok(((var, begin), p)) ==> valid_name(var.name)
            && var_valid(dims, var),
{
    if let Ok(((var, begin), p)) = parse_var(s, pos, dims, version) {
        lemma_parse_name_valid(s, pos);
        let (name, pos1) = parse_name(s, pos)->Ok_0;
        let (count, pos2) = parse_u32(s, pos1)->Ok_0;
        lemma_parse_ids_valid(s, pos2, count, dims.len());
        let (ids, pos3) = parse_ids(s, pos2, count, dims.len())->Ok_0;
        lemma_unlimited_uses(dims, ids);
        let (head, pos4) = parse_list_head(s, pos3, ATTRIBUTE_TAG as nat)->Ok_0;
        lemma_parse_attrs_valid(s, pos4, head);
        assert(var.dim_ids == ids);
        assert forall|k: int| 1 <= k < ids.len() implies !dims[#[trigger] ids[k]].is_unlimited() by {
            if dims[ids[k]].is_unlimited() {
                if dims[ids[0]].is_unlimited() {
                    assert(unlimited_uses(dims, ids) >= 2);
                }
            }
        }
    }
}

/// Variables that are read have valid, distinct names, are variables over
/// the dimensions, and come with one offset each.
pub proof fn lemma_parse_vars_valid(
    s: Seq<u8>,
    pos: int,
    count: nat,
    dims: Seq<DimensionView>,
    version: Version,
)
    ensures
        parse_vars(s, pos, count, dims, version) matches Ok(((vars, begins), p)) ==> {
            &&& names_valid(vars)
            &&& names_distinct(vars)
            &&& vars.len() == count
            &&& begins.len() == count
            &&& forall|v: int| 0 <= v < vars.len() ==> var_valid(dims, #[trigger] vars[v])
        },
    decreases count,
{
    if count > 0 {
        lemma_parse_vars_valid(s, pos, (count - 1) as nat, dims, version);
        if let Ok(((vars, begins), p)) = parse_vars(s, pos, (count - 1) as nat, dims, version) {
            lemma_parse_var_valid(s, p, dims, version);
            if let Ok(((after, _), _)) = parse_vars(s, pos, count, dims, version) {
                let var = parse_var(s, p, dims, version)->Ok_0.0.0;
                lemma_push_named(vars, var);
                assert forall|v: int| 0 <= v < after.len() implies var_valid(
                    dims,
                    #[trigger] after[v],
                ) by {
                    if v < vars.len() {
                        assert(after[v] == vars[v]);
                    }
                }
            }
        }
    }
}

/// Whatever the bytes, a header that is read holds a data set, one offset
/// for each variable, and as the size of the unlimited dimension the number
/// of records.
pub proof fn lemma_parse_header_valid(s: Seq<u8>)
    ensures
        parse_header(s) matches Ok((h, p)) ==> {
            &&& h.data_set.valid()
            &&& h.begins.len() == h.data_set.vars.len()
            &&& h.data_set.with_num_records(h.num_records) == h.data_set
            &&& h.num_records < 0xffff_ffff
            &&& 0 <= p <= s.len()
        },
{
    if let Ok((h, p)) = parse_header(s) {
        let version = parse_magic(s)->Ok_0;
        let (field, pos1) = parse_u32(s, 4)->Ok_0;
        crate::primitive::lemma_be_value_bound(s.subrange(4, 8));
        lemma_pow256_values();
        let n = records_of_field(field);
        let (dcount, d1) = parse_list_head(s, pos1, DIMENSION_TAG as nat)->Ok_0;
        lemma_parse_dims_valid(s, d1, dcount, n);
        let (dims, pos2) = parse_dims(s, d1, dcount, n)->Ok_0;
        let (acount, a1) = parse_list_head(s, pos2, ATTRIBUTE_TAG as nat)->Ok_0;
        lemma_parse_attrs_valid(s, a1, acount);
        let (attrs, pos3) = parse_attrs(s, a1, acount)->Ok_0;
        let (vcount, v1) = parse_list_head(s, pos3, VARIABLE_TAG as nat)->Ok_0;
        lemma_parse_vars_valid(s, v1, vcount, dims, version);
        lemma_parse_end(s, v1, vcount, dims, version);
        lemma_find_unlimited(dims);
        if let Some(i) = find_unlimited(dims) {
            assert(h.data_set.with_num_records(n).dims =~= dims);
        }
    }
}

/// Reading the variables ends within the bytes.
proof fn lemma_parse_end(s: Seq<u8>, pos: int, count: nat, dims: Seq<DimensionView>, version: Version)
    requires
        0 <= pos <= s.len(),
    ensures
        parse_vars(s, pos, count, dims, version) matches Ok((_, p)) ==> 0 <= p <= s.len(),
    decreases count,
{
    if count > 0 {
        lemma_parse_end(s, pos, (count - 1) as nat, dims, version);
    }
}

/// Every value of every attribute is a number that its type admits.
pub open spec fn attrs_admitted(attrs: Seq<AttributeView>) -> bool {
    forall|i: int| 0 <= i < attrs.len() ==> (#[trigger] attrs[i]).values.admitted()
}

/// What holds of a header that can be written and read back: the data set is
/// one, every count, size and offset fits its field, the values of the
/// attributes are values of their types, the unlimited dimension has the
/// number of records as its size, and no fixed dimension has size zero
/// (in a file a size of zero marks the unlimited dimension).
pub open spec fn storable(h: HeaderView) -> bool {
    &&& h.data_set.valid()
    &&& header_fits(h.data_set, h.num_records)
    &&& h.begins.len() == h.data_set.vars.len()
    &&& begins_fit(h.begins, h.version)
    &&& attrs_admitted(h.data_set.attrs)
    &&& forall|v: int|
        0 <= v < h.data_set.vars.len() ==> attrs_admitted((#[trigger] h.data_set.vars[v]).attrs)
    &&& dims_storable(h.data_set.dims, h.num_records)
}

/// The unlimited dimension has the number of records as its size, and no
/// fixed dimension has size zero.
pub open spec fn dims_storable(dims: Seq<DimensionView>, num_records: nat) -> bool {
    forall|i: int|
        0 <= i < dims.len() ==> if (#[trigger] dims[i]).is_unlimited() {
            dims[i].size == num_records
        } else {
            dims[i].size > 0
        }
}

pub proof fn lemma_u32_round_trip(s: Seq<u8>, pos: int, v: nat)
    requires
        v < 0x1_0000_0000,
        holds_at(s, pos, u32_bytes(v)),
    ensures
        u32_bytes(v).len() == 4,
        parse_u32(s, pos) == Ok::<(nat, int), ReadErrorView>((v, pos + 4)),
{
    lemma_be_bytes_len(v, 4);
    lemma_pow256_values();
    lemma_be_value_of_bytes(v, 4);
}

/// A valid name that was written is read back.
pub proof fn lemma_name_round_trip(s: Seq<u8>, pos: int, name: Seq<char>)
    requires
        valid_name(name),
        holds_at(s, pos, name_bytes(name)),
    ensures
        parse_name(s, pos) == Ok::<(Seq<char>, int), ReadErrorView>(
            (name, pos + name_bytes(name).len()),
        ),
{
    let b = encode_utf8(name);
    lemma_holds_at_concat(s, pos, u32_bytes(b.len()), padded(b));
    lemma_u32_round_trip(s, pos, b.len());
    lemma_holds_at_concat(s, pos + 4, b, zeros(padding(b.len())));
    lemma_round_up_4(b.len());
    encode_utf8_valid_utf8(name);
    encode_utf8_decode_utf8(name);
}

/// Values that were written are read back.
pub proof fn lemma_values_round_trip(s: Seq<u8>, pos: int, v: Values)
    requires
        v.admitted(),
        v.elems.len() < 0x1_0000_0000,
        holds_at(s, pos, values_bytes(v)),
    ensures
        parse_values(s, pos) == Ok::<(Values, int), ReadErrorView>(
            (v, pos + values_bytes(v).len()),
        ),
{
    let dt = v.data_type;
    let data = elems_bytes(dt, v.elems);
    let a = u32_bytes(dt.spec_code());
    let b = u32_bytes(v.elems.len());
    dt.lemma_code_round_trip();
    lemma_holds_at_concat(s, pos, a + b, padded(data));
    lemma_holds_at_concat(s, pos, a, b);
    lemma_u32_round_trip(s, pos, dt.spec_code());
    lemma_u32_round_trip(s, pos + 4, v.elems.len());
    lemma_holds_at_concat(s, pos + 8, data, zeros(padding(data.len())));
    lemma_elems_bytes_len(dt, v.elems);
    lemma_round_up_4(data.len());
    lemma_elems_round_trip(dt, v.elems, s, pos + 8);
}

/// An attribute that was written is read back.
pub proof fn lemma_attr_round_trip(s: Seq<u8>, pos: int, a: AttributeView)
    requires
        valid_name(a.name),
        a.values.admitted(),
        a.values.elems.len() < 0x1_0000_0000,
        holds_at(s, pos, attr_bytes(a)),
    ensures
        parse_attr(s, pos) == Ok::<(AttributeView, int), ReadErrorView>(
            (a, pos + attr_bytes(a).len()),
        ),
{
    lemma_holds_at_concat(s, pos, name_bytes(a.name), values_bytes(a.values));
    lemma_name_round_trip(s, pos, a.name);
    lemma_values_round_trip(s, pos + name_bytes(a.name).len(), a.values);
}

/// Attributes that were written are read back.
pub proof fn lemma_attrs_round_trip(s: Seq<u8>, pos: int, attrs: Seq<AttributeView>)
    requires
        names_valid(attrs),
        names_distinct(attrs),
        attrs_admitted(attrs),
        attrs_fit(attrs),
        holds_at(s, pos, attrs_bytes(attrs)),
    ensures
        parse_attrs(s, pos, attrs.len()) == Ok::<(Seq<AttributeView>, int), ReadErrorView>(
            (attrs, pos + attrs_bytes(attrs).len()),
        ),
    decreases attrs.len(),
{
    if attrs.len() > 0 {
        let front = attrs.drop_last();
        let last = attrs.last();
        lemma_holds_at_concat(s, pos, attrs_bytes(front), attr_bytes(last));
        assert(names_valid(front) && names_distinct(front) && attrs_admitted(front) && attrs_fit(
            front,
        )) by {
            assert forall|i: int| 0 <= i < front.len() implies front[i] == attrs[i] by {}
            assert forall|i: int, j: int| 0 <= i < j < front.len() implies (
            #[trigger] front[i]).name_of() != (#[trigger] front[j]).name_of() by {
                assert(front[i] == attrs[i] && front[j] == attrs[j]);
            }
        }
        lemma_attrs_round_trip(s, pos, front);
        assert(attrs[attrs.len() - 1] == last);
        assert(valid_name(last.name_of()));
        lemma_attr_round_trip(s, pos + attrs_bytes(front).len(), last);
        lemma_find_named(front, last.name);
        if let Some(i) = find_named(front, last.name) {
            assert(front[i] == attrs[i]);
            assert(attrs[i].name_of() != attrs[attrs.len() - 1].name_of());
        }
        assert(front.push(last) =~= attrs);
    } else {
        assert(attrs =~= Seq::empty());
    }
}

/// What opens a list is read back as the number of its entries.
pub proof fn lemma_list_head_round_trip(s: Seq<u8>, pos: int, tag: nat, count: nat)
    requires
        0 < tag < 0x1_0000_0000,
        count < 0x1_0000_0000,
        holds_at(s, pos, list_head(tag, count)),
    ensures
        list_head(tag, count).len() == 8,
        parse_list_head(s, pos, tag) == Ok::<(nat, int), ReadErrorView>((count, pos + 8)),
{
    if count == 0 {
        assert(zeros(8) =~= u32_bytes(0) + u32_bytes(0)) by {
            reveal_with_fuel(be_bytes, 5);
        }
        lemma_holds_at_concat(s, pos, u32_bytes(0), u32_bytes(0));
        lemma_u32_round_trip(s, pos, 0);
        lemma_u32_round_trip(s, pos + 4, 0);
    } else {
        lemma_holds_at_concat(s, pos, u32_bytes(tag), u32_bytes(count));
        lemma_u32_round_trip(s, pos, tag);
        lemma_u32_round_trip(s, pos + 4, count);
    }
}

/// A list of attributes that was written is read back.
pub proof fn lemma_attr_list_round_trip(s: Seq<u8>, pos: int, attrs: Seq<AttributeView>)
    requires
        names_valid(attrs),
        names_distinct(attrs),
        attrs_admitted(attrs),
        attrs_fit(attrs),
        holds_at(s, pos, attr_list_bytes(attrs)),
    ensures
        parse_attr_list(s, pos) == Ok::<(Seq<AttributeView>, int), ReadErrorView>(
            (attrs, pos + attr_list_bytes(attrs).len()),
        ),
{
    lemma_holds_at_concat(s, pos, list_head(ATTRIBUTE_TAG as nat, attrs.len()), attrs_bytes(attrs));
    lemma_list_head_round_trip(s, pos, ATTRIBUTE_TAG as nat, attrs.len());
    lemma_attrs_round_trip(s, pos + 8, attrs);
}

/// A dimension that was written is read back.
pub proof fn lemma_dim_round_trip(s: Seq<u8>, pos: int, d: DimensionView, num_records: nat)
    requires
        valid_name(d.name),
        dim_size_field(d) < 0x1_0000_0000,
        d.is_unlimited() ==> d.size == num_records,
        !d.is_unlimited() ==> d.size > 0,
        holds_at(s, pos, dim_bytes(d)),
    ensures
        parse_dim(s, pos, num_records) == Ok::<(DimensionView, int), ReadErrorView>(
            (d, pos + dim_bytes(d).len()),
        ),
{
    lemma_holds_at_concat(s, pos, name_bytes(d.name), u32_bytes(dim_size_field(d)));
    lemma_name_round_trip(s, pos, d.name);
    lemma_u32_round_trip(s, pos + name_bytes(d.name).len(), dim_size_field(d));
}

/// Dimensions that were written are read back.
pub proof fn lemma_dims_round_trip(s: Seq<u8>, pos: int, dims: Seq<DimensionView>, num_records: nat)
    requires
        names_valid(dims),
        names_distinct(dims),
        at_most_one_unlimited(dims),
        dims_storable(dims, num_records),
        forall|i: int| 0 <= i < dims.len() ==> dim_size_field(#[trigger] dims[i]) <= FIELD_MAX,
        holds_at(s, pos, dims_bytes(dims)),
    ensures
        parse_dims(s, pos, dims.len(), num_records) == Ok::<
            (Seq<DimensionView>, int),
            ReadErrorView,
        >((dims, pos + dims_bytes(dims).len())),
    decreases dims.len(),
{
    if dims.len() > 0 {
        let front = dims.drop_last();
        let last = dims.last();
        let n = dims.len() - 1;
        lemma_holds_at_concat(s, pos, dims_bytes(front), dim_bytes(last));
        assert forall|i: int| 0 <= i < front.len() implies front[i] == dims[i] by {}
        assert(names_distinct(front)) by {
            assert forall|i: int, j: int| 0 <= i < j < front.len() implies (
            #[trigger] front[i]).name_of() != (#[trigger] front[j]).name_of() by {
                assert(front[i] == dims[i] && front[j] == dims[j]);
            }
        }
        assert(at_most_one_unlimited(front)) by {
            assert forall|i: int, j: int| 0 <= i < j < front.len() implies !((
            #[trigger] front[i]).is_unlimited() && (#[trigger] front[j]).is_unlimited()) by {
                assert(front[i] == dims[i] && front[j] == dims[j]);
            }
        }
        lemma_dims_round_trip(s, pos, front, num_records);
        assert(dims[n] == last);
        assert(valid_name(last.name_of()));
        lemma_dim_round_trip(s, pos + dims_bytes(front).len(), last, num_records);
        lemma_find_named(front, last.name);
        if let Some(i) = find_named(front, last.name) {
            assert(front[i] == dims[i]);
            assert(dims[i].name_of() != dims[n].name_of());
        }
        lemma_find_unlimited(front);
        if let Some(i) = find_unlimited(front) {
            assert(front[i] == dims[i]);
            assert(!(dims[i].is_unlimited() && dims[n].is_unlimited()));
        }
        assert(front.push(last) =~= dims);
    } else {
        assert(dims =~= Seq::empty());
    }
}

/// A shape that was written is read back.
pub proof fn lemma_ids_round_trip(s: Seq<u8>, pos: int, ids: Seq<int>, num_dims: nat)
    requires
        num_dims <= FIELD_MAX,
        forall|k: int| 0 <= k < ids.len() ==> 0 <= #[trigger] ids[k] < num_dims,
        holds_at(s, pos, ids_bytes(ids)),
    ensures
        ids_bytes(ids).len() == 4 * ids.len(),
        parse_ids(s, pos, ids.len(), num_dims) == Ok::<(Seq<int>, int), ReadErrorView>(
            (ids, pos + ids_bytes(ids).len()),
        ),
    decreases ids.len(),
{
    if ids.len() > 0 {
        let front = ids.drop_last();
        let last = ids.last();
        lemma_holds_at_concat(s, pos, ids_bytes(front), u32_bytes(last as nat));
        assert forall|k: int| 0 <= k < front.len() implies 0 <= #[trigger] front[k] < num_dims by {
            assert(front[k] == ids[k]);
        }
        lemma_ids_round_trip(s, pos, front, num_dims);
        assert(ids[ids.len() - 1] == last);
        lemma_u32_round_trip(s, pos + ids_bytes(front).len(), last as nat);
        assert(front.push(last) =~= ids);
    } else {
        assert(ids =~= Seq::empty());
    }
}

/// In a shape that holds the unlimited dimension in the first place only,
/// it is held once or not at all.
pub proof fn lemma_shape_uses(dims: Seq<DimensionView>, ids: Seq<int>)
    requires
        shape_valid(dims, ids),
    ensures
        unlimited_uses(dims, ids) == if ids.len() > 0 && dims[ids[0]].is_unlimited() {
            1nat
        } else {
            0nat
        },
    decreases ids.len(),
{
    if ids.len() > 0 {
        let front = ids.drop_last();
        assert(shape_valid(dims, front)) by {
            assert forall|k: int| 0 <= k < front.len() implies 0 <= #[trigger] front[k]
                < dims.len() by {
                assert(front[k] == ids[k]);
            }
            assert forall|k: int| 1 <= k < front.len() implies !dims[#[trigger] front[k]].is_unlimited() by {
                assert(front[k] == ids[k]);
            }
        }
        lemma_shape_uses(dims, front);
        if ids.len() > 1 {
            assert(front[0] == ids[0]);
            assert(ids[ids.len() - 1] == ids.last());
        }
    }
}

/// An offset that was written is read back.
pub proof fn lemma_begin_round_trip(s: Seq<u8>, pos: int, begin: nat, version: Version)
    requires
        begin < pow256(version.spec_offset_width()),
        holds_at(s, pos, be_bytes(begin, version.spec_offset_width())),
    ensures
        be_bytes(begin, version.spec_offset_width()).len() == version.spec_offset_width(),
        parse_begin(s, pos, version) == Ok::<(nat, int), ReadErrorView>(
            (begin, pos + version.spec_offset_width()),
        ),
{
    lemma_be_bytes_len(begin, version.spec_offset_width());
    lemma_be_value_of_bytes(begin, version.spec_offset_width());
}

/// A variable that was written is read back, with the offset of its data.
pub proof fn lemma_var_round_trip(
    s: Seq<u8>,
    pos: int,
    var: VariableView,
    vsize: nat,
    begin: nat,
    dims: Seq<DimensionView>,
    version: Version,
)
    requires
        valid_name(var.name),
        var_valid(dims, var),
        dims.len() <= FIELD_MAX,
        var.dim_ids.len() <= FIELD_MAX,
        attrs_fit(var.attrs),
        attrs_admitted(var.attrs),
        vsize <= FIELD_MAX,
        begin < pow256(version.spec_offset_width()),
        holds_at(s, pos, var_bytes(var, vsize, begin, version)),
    ensures
        parse_var(s, pos, dims, version) == Ok::<((VariableView, nat), int), ReadErrorView>(
            ((var, begin), pos + var_bytes(var, vsize, begin, version).len()),
        ),
{
    let a = name_bytes(var.name);
    let b = u32_bytes(var.dim_ids.len());
    let c = ids_bytes(var.dim_ids);
    let d = attr_list_bytes(var.attrs);
    let e = u32_bytes(var.data_type.spec_code());
    let f = u32_bytes(vsize);
    let g = be_bytes(begin, version.spec_offset_width());
    lemma_holds_at_concat(s, pos, a + b + c + d + e + f, g);
    lemma_holds_at_concat(s, pos, a + b + c + d + e, f);
    lemma_holds_at_concat(s, pos, a + b + c + d, e);
    lemma_holds_at_concat(s, pos, a + b + c, d);
    lemma_holds_at_concat(s, pos, a + b, c);
    lemma_holds_at_concat(s, pos, a, b);
    let pos1 = pos + a.len();
    lemma_name_round_trip(s, pos, var.name);
    lemma_u32_round_trip(s, pos1, var.dim_ids.len());
    let pos2 = pos1 + 4;
    lemma_ids_round_trip(s, pos2, var.dim_ids, dims.len());
    let pos3 = pos2 + c.len();
    lemma_shape_uses(dims, var.dim_ids);
    lemma_attr_list_round_trip(s, pos3, var.attrs);
    let pos4 = pos3 + d.len();
    var.data_type.lemma_code_round_trip();
    lemma_u32_round_trip(s, pos4, var.data_type.spec_code());
    lemma_u32_round_trip(s, pos4 + 4, vsize);
    lemma_begin_round_trip(s, pos4 + 8, begin, version);
    assert(parse_var_rest(s, pos3, var.name, var.dim_ids, version) == Ok::<
        ((VariableView, nat), int),
        ReadErrorView,
    >(((var, begin), pos4 + 8 + version.spec_offset_width())));
}

/// What holds of the variable at `v` of a header that can be written and
/// read back.
#[verifier::opaque]
pub open spec fn var_storable(h: HeaderView, v: int) -> bool {
    let var = h.data_set.vars[v];
    &&& valid_name(var.name)
    &&& var_valid(h.data_set.dims, var)
    &&& var.dim_ids.len() <= FIELD_MAX
    &&& attrs_fit(var.attrs)
    &&& attrs_admitted(var.attrs)
    &&& h.data_set.vsize(v) <= FIELD_MAX
    &&& h.begins[v] < pow256(h.version.spec_offset_width())
}

/// What holds of the variables of a header that can be written and read
/// back.
pub open spec fn vars_storable(h: HeaderView) -> bool {
    &&& h.data_set.dims.len() <= FIELD_MAX
    &&& h.begins.len() == h.data_set.vars.len()
    &&& names_distinct(h.data_set.vars)
    &&& forall|v: int| 0 <= v < h.data_set.vars.len() ==> #[trigger] var_storable(h, v)
}

pub proof fn lemma_storable_vars(h: HeaderView)
    requires
        storable(h),
    ensures
        vars_storable(h),
{
    let ds = h.data_set;
    reveal(var_storable);
    assert forall|v: int| 0 <= v < ds.vars.len() implies #[trigger] var_storable(h, v) by {
        assert(valid_name(ds.vars[v].name_of()));
        assert(var_valid(ds.dims, ds.vars[v]));
        assert(ds.vars[v].dim_ids.len() <= FIELD_MAX && attrs_fit(ds.vars[v].attrs));
        assert(attrs_admitted(ds.vars[v].attrs));
        assert(ds.vsize(v) <= FIELD_MAX);
        assert(h.begins[v] < pow256(h.version.spec_offset_width()));
    }
}

/// The variable at `v` that was written is read back, with the offset of its
/// data.
proof fn lemma_stored_var_round_trip(s: Seq<u8>, pos: int, h: HeaderView, v: int)
    requires
        h.data_set.dims.len() <= FIELD_MAX,
        var_storable(h, v),
        holds_at(
            s,
            pos,
            var_bytes(h.data_set.vars[v], h.data_set.vsize(v), h.begins[v], h.version),
        ),
    ensures
        parse_var(s, pos, h.data_set.dims, h.version) == Ok::<
            ((VariableView, nat), int),
            ReadErrorView,
        >(
            (
                (h.data_set.vars[v], h.begins[v]),
                pos + var_bytes(
                    h.data_set.vars[v],
                    h.data_set.vsize(v),
                    h.begins[v],
                    h.version,
                ).len(),
            ),
        ),
{
    reveal(var_storable);
    lemma_var_round_trip(
        s,
        pos,
        h.data_set.vars[v],
        h.data_set.vsize(v),
        h.begins[v],
        h.data_set.dims,
        h.version,
    );
}

/// No variable before the variable at `n` has its name.
proof fn lemma_name_is_new(vars: Seq<VariableView>, n: int)
    requires
        names_distinct(vars),
        0 <= n < vars.len(),
    ensures
        find_named(vars.take(n), vars[n].name) is None,
{
    let before = vars.take(n);
    lemma_find_named(before, vars[n].name);
    if let Some(i) = find_named(before, vars[n].name) {
        assert(before[i] == vars[i]);
        assert(vars[i].name_of() != vars[n].name_of());
    }
}

/// The first `n` variables that were written are read back, each with the
/// offset of its data.
pub proof fn lemma_vars_round_trip(s: Seq<u8>, pos: int, h: HeaderView, n: int)
    requires
        vars_storable(h),
        0 <= n <= h.data_set.vars.len(),
        holds_at(s, pos, vars_bytes(h.data_set, h.begins, h.version, n)),
    ensures
        parse_vars(s, pos, n as nat, h.data_set.dims, h.version) == Ok::<
            ((Seq<VariableView>, Seq<nat>), int),
            ReadErrorView,
        >(
            (
                (h.data_set.vars.take(n), h.begins.take(n)),
                pos + vars_bytes(h.data_set, h.begins, h.version, n).len(),
            ),
        ),
    decreases n,
{
    let ds = h.data_set;
    if n > 0 {
        let var = ds.vars[n - 1];
        let begin = h.begins[n - 1];
        let front = vars_bytes(ds, h.begins, h.version, n - 1);
        let last = var_bytes(var, ds.vsize(n - 1), begin, h.version);
        assert(vars_bytes(ds, h.begins, h.version, n) == front + last);
        lemma_holds_at_concat(s, pos, front, last);
        lemma_vars_round_trip(s, pos, h, n - 1);
        assert(var_storable(h, n - 1));
        lemma_stored_var_round_trip(s, pos + front.len(), h, n - 1);
        lemma_name_is_new(ds.vars, n - 1);
        assert(ds.vars.take(n - 1).push(var) =~= ds.vars.take(n));
        assert(h.begins.take(n - 1).push(begin) =~= h.begins.take(n));
    } else {
        assert(ds.vars.take(0) =~= Seq::empty());
        assert(h.begins.take(0) =~= Seq::empty());
    }
}

/// The list of variables that was written is read back.
pub proof fn lemma_var_list_round_trip(s: Seq<u8>, pos: int, h: HeaderView)
    requires
        vars_storable(h),
        h.data_set.vars.len() <= FIELD_MAX,
        holds_at(s, pos, var_list_bytes(h.data_set, h.begins, h.version)),
    ensures
        parse_var_list(s, pos, h.data_set.dims, h.version) == Ok::<
            ((Seq<VariableView>, Seq<nat>), int),
            ReadErrorView,
        >(
            (
                (h.data_set.vars, h.begins),
                pos + var_list_bytes(h.data_set, h.begins, h.version).len(),
            ),
        ),
{
    let ds = h.data_set;
    let n = ds.vars.len() as int;
    lemma_holds_at_concat(
        s,
        pos,
        list_head(VARIABLE_TAG as nat, ds.vars.len()),
        vars_bytes(ds, h.begins, h.version, n),
    );
    lemma_list_head_round_trip(s, pos, VARIABLE_TAG as nat, ds.vars.len());
    lemma_vars_round_trip(s, pos + 8, h, n);
    assert(ds.vars.take(n) =~= ds.vars);
    assert(h.begins.take(n) =~= h.begins);
}

/// The list of dimensions that was written is read back.
pub proof fn lemma_dim_list_round_trip(s: Seq<u8>, pos: int, dims: Seq<DimensionView>, num_records: nat)
    requires
        names_valid(dims),
        names_distinct(dims),
        at_most_one_unlimited(dims),
        dims_storable(dims, num_records),
        dims.len() <= FIELD_MAX,
        forall|i: int| 0 <= i < dims.len() ==> dim_size_field(#[trigger] dims[i]) <= FIELD_MAX,
        holds_at(s, pos, dim_list_bytes(dims)),
    ensures
        parse_dim_list(s, pos, num_records) == Ok::<(Seq<DimensionView>, int), ReadErrorView>(
            (dims, pos + dim_list_bytes(dims).len()),
        ),
{
    lemma_holds_at_concat(s, pos, list_head(DIMENSION_TAG as nat, dims.len()), dims_bytes(dims));
    lemma_list_head_round_trip(s, pos, DIMENSION_TAG as nat, dims.len());
    lemma_dims_round_trip(s, pos + 8, dims, num_records);
}

/// The first eight bytes that were written are read back as the version and
/// the number of records.
pub proof fn lemma_preamble_round_trip(s: Seq<u8>, version: Version, num_records: nat)
    requires
        num_records <= FIELD_MAX,
        holds_at(s, 0, magic_bytes(version) + u32_bytes(num_records)),
    ensures
        (magic_bytes(version) + u32_bytes(num_records)).len() == 8,
        parse_magic(s) == Ok::<Version, ReadErrorView>(version),
        parse_u32(s, 4) == Ok::<(nat, int), ReadErrorView>((num_records, 8)),
        records_of_field(num_records) == num_records,
{
    let a = magic_bytes(version);
    lemma_holds_at_concat(s, 0, a, u32_bytes(num_records));
    let sub = s.subrange(0, 4);
    assert(sub[0] == s[0] && sub[1] == s[1] && sub[2] == s[2] && sub[3] == s[3]);
    assert(a[0] == 0x43 && a[1] == 0x44 && a[2] == 0x46 && a[3] == version.spec_code());
    lemma_u32_round_trip(s, 4, num_records);
}

/// A header that was written is read back as it was, whatever follows it.
pub proof fn lemma_header_round_trip(s: Seq<u8>, h: HeaderView)
    requires
        storable(h),
        holds_at(s, 0, header_bytes(h)),
    ensures
        parse_header(s) == Ok::<(HeaderView, int), ReadErrorView>((h, header_bytes(h).len() as int)),
{
    let ds = h.data_set;
    let ab = magic_bytes(h.version) + u32_bytes(h.num_records);
    let c = dim_list_bytes(ds.dims);
    let d = attr_list_bytes(ds.attrs);
    let e = var_list_bytes(ds, h.begins, h.version);
    assert(header_bytes(h) == ab + c + d + e);
    lemma_holds_at_concat(s, 0, ab + c + d, e);
    lemma_holds_at_concat(s, 0, ab + c, d);
    lemma_holds_at_concat(s, 0, ab, c);
    lemma_preamble_round_trip(s, h.version, h.num_records);
    lemma_dim_list_round_trip(s, 8, ds.dims, h.num_records);
    let pos2: int = 8int + c.len();
    lemma_attr_list_round_trip(s, pos2, ds.attrs);
    let pos3: int = pos2 + d.len();
    lemma_storable_vars(h);
    lemma_var_list_round_trip(s, pos3, h);
    assert(DataSetView { dims: ds.dims, attrs: ds.attrs, vars: ds.vars } == ds);
}

} // verus!
