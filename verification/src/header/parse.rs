//! How bytes are read as a header.
use crate::data_set::attribute::{find_attr, Attribute, AttributeView};
use crate::data_set::dimension::{Dimension, DimensionSize, DimensionType, DimensionView};
use crate::data_set::model::{find_unlimited, unlimited_uses, DataSetView};
use crate::data_set::named::{find_named, views};
use crate::data_set::variable::{ids_view, Variable, VariableView};
use crate::data_type::DataType;
use crate::data_vector::{elems_at, DataVector, Values};
use crate::error::{InvalidDataSet, InvalidDataSetView, ReadError, ReadErrorView};
use crate::header::{HeaderView, ATTRIBUTE_TAG, DIMENSION_TAG, VARIABLE_TAG};
use crate::layout::Version;
use crate::name_string::{is_valid_name_bytes, valid_name, valid_name_bytes};
use crate::primitive::{
    be_value, get_u32, get_u64, lemma_be_value_bound, lemma_pow256_values, lemma_round_up_4,
    round_up_4,
};
use vstd::prelude::*;
use vstd::slice::*;
use vstd::string::*;
use vstd::utf8::*;

verus! {

/// What reading gives: the value read and the place where reading goes on,
/// or why nothing could be read.
pub type Parsed<T> = Result<(T, int), ReadErrorView>;

/// The number in the four bytes at `pos`.
pub open spec fn parse_u32(s: Seq<u8>, pos: int) -> Parsed<nat> {
    if 0 <= pos && pos + 4 <= s.len() {
        Ok((be_value(s.subrange(pos, pos + 4)), pos + 4))
    } else {
        Err(ReadErrorView::UnexpectedEndOfInput)
    }
}

/// The name at `pos`. The bytes that pad it are passed over, whatever they
/// hold.
pub open spec fn parse_name(s: Seq<u8>, pos: int) -> Parsed<Seq<char>> {
    match parse_u32(s, pos) {
        Err(e) => Err(e),
        Ok((n, p)) => {
            let bytes = s.subrange(p, p + n);
            if p + round_up_4(n) > s.len() {
                Err(ReadErrorView::UnexpectedEndOfInput)
            } else if !valid_utf8(bytes) || !valid_name_bytes(bytes) {
                Err(ReadErrorView::InvalidName(bytes))
            } else {
                Ok((decode_utf8(bytes), p + round_up_4(n)))
            }
        },
    }
}

/// The typed values at `pos`.
pub open spec fn parse_values(s: Seq<u8>, pos: int) -> Parsed<Values> {
    match parse_u32(s, pos) {
        Err(e) => Err(e),
        Ok((tag, pos1)) => match DataType::spec_from_code(tag) {
            None => Err(ReadErrorView::InvalidTypeTag(tag as u32)),
            Some(dt) => match parse_u32(s, pos1) {
                Err(e) => Err(e),
                Ok((count, pos2)) => {
                    let end = pos2 + round_up_4(count * dt.spec_size_of());
                    if end > s.len() {
                        Err(ReadErrorView::UnexpectedEndOfInput)
                    } else {
                        Ok((Values { data_type: dt, elems: elems_at(dt, s, pos2, count) }, end))
                    }
                },
            },
        },
    }
}

/// The attribute at `pos`.
pub open spec fn parse_attr(s: Seq<u8>, pos: int) -> Parsed<AttributeView> {
    match parse_name(s, pos) {
        Err(e) => Err(e),
        Ok((name, p)) => match parse_values(s, p) {
            Err(e) => Err(e),
            Ok((values, q)) => Ok((AttributeView { name, values }, q)),
        },
    }
}

/// The `count` attributes from `pos` on. Two attributes of one name are
/// refused.
pub open spec fn parse_attrs(s: Seq<u8>, pos: int, count: nat) -> Parsed<Seq<AttributeView>>
    decreases count,
{
    if count == 0 {
        Ok((Seq::empty(), pos))
    } else {
        match parse_attrs(s, pos, (count - 1) as nat) {
            Err(e) => Err(e),
            Ok((attrs, p)) => match parse_attr(s, p) {
                Err(e) => Err(e),
                Ok((a, q)) => if find_named(attrs, a.name) is Some {
                    Err(
                        ReadErrorView::InvalidDataSet(
                            InvalidDataSetView::AttributeAlreadyExists(a.name),
                        ),
                    )
                } else {
                    Ok((attrs.push(a), q))
                },
            },
        }
    }
}

/// The number of entries of the list that opens at `pos`. The list opens
/// with `tag`, or with a zero tag where it is empty.
pub open spec fn parse_list_head(s: Seq<u8>, pos: int, tag: nat) -> Parsed<nat> {
    match parse_u32(s, pos) {
        Err(e) => Err(e),
        Ok((t, pos1)) => match parse_u32(s, pos1) {
            Err(e) => Err(e),
            Ok((count, pos2)) => if t == tag || (t == 0 && count == 0) {
                Ok((count, pos2))
            } else {
                Err(ReadErrorView::InvalidTypeTag(t as u32))
            },
        },
    }
}

/// The list of attributes at `pos`.
pub open spec fn parse_attr_list(s: Seq<u8>, pos: int) -> Parsed<Seq<AttributeView>> {
    match parse_list_head(s, pos, ATTRIBUTE_TAG as nat) {
        Err(e) => Err(e),
        Ok((count, p)) => parse_attrs(s, p, count),
    }
}

/// The dimension at `pos`. A size of zero stands for the unlimited
/// dimension, whose size is the number of records.
pub open spec fn parse_dim(s: Seq<u8>, pos: int, num_records: nat) -> Parsed<DimensionView> {
    match parse_name(s, pos) {
        Err(e) => Err(e),
        Ok((name, p)) => match parse_u32(s, p) {
            Err(e) => Err(e),
            Ok((size, q)) => if size == 0 {
                Ok(
                    (
                        DimensionView {
                            name,
                            size: num_records,
                            dim_type: DimensionType::UnlimitedSize,
                        },
                        q,
                    ),
                )
            } else {
                Ok((DimensionView { name, size, dim_type: DimensionType::FixedSize }, q))
            },
        },
    }
}

/// The `count` dimensions from `pos` on. A second unlimited dimension is
/// refused, and so are two dimensions of one name.
pub open spec fn parse_dims(s: Seq<u8>, pos: int, count: nat, num_records: nat) -> Parsed<
    Seq<DimensionView>,
>
    decreases count,
{
    if count == 0 {
        Ok((Seq::empty(), pos))
    } else {
        match parse_dims(s, pos, (count - 1) as nat, num_records) {
            Err(e) => Err(e),
            Ok((dims, p)) => match parse_dim(s, p, num_records) {
                Err(e) => Err(e),
                Ok((d, q)) => if d.is_unlimited() && find_unlimited(dims) is Some {
                    Err(
                        ReadErrorView::InvalidDataSet(
                            InvalidDataSetView::UnlimitedAlreadyExists(
                                dims[find_unlimited(dims).unwrap()].name,
                            ),
                        ),
                    )
                } else if find_named(dims, d.name) is Some {
                    Err(
                        ReadErrorView::InvalidDataSet(
                            InvalidDataSetView::DimensionAlreadyExists(d.name),
                        ),
                    )
                } else {
                    Ok((dims.push(d), q))
                },
            },
        }
    }
}

/// The list of dimensions at `pos`.
pub open spec fn parse_dim_list(s: Seq<u8>, pos: int, num_records: nat) -> Parsed<
    Seq<DimensionView>,
> {
    match parse_list_head(s, pos, DIMENSION_TAG as nat) {
        Err(e) => Err(e),
        Ok((count, p)) => parse_dims(s, p, count, num_records),
    }
}

/// The shape of `count` places from `pos` on, among `num_dims` dimensions.
pub open spec fn parse_ids(s: Seq<u8>, pos: int, count: nat, num_dims: nat) -> Parsed<Seq<int>>
    decreases count,
{
    if count == 0 {
        Ok((Seq::empty(), pos))
    } else {
        match parse_ids(s, pos, (count - 1) as nat, num_dims) {
            Err(e) => Err(e),
            Ok((ids, p)) => match parse_u32(s, p) {
                Err(e) => Err(e),
                Ok((id, q)) => if id >= num_dims {
                    Err(ReadErrorView::DimensionNotFound(id as u32))
                } else {
                    Ok((ids.push(id as int), q))
                },
            },
        }
    }
}

/// The offset at `pos`, in the width of the version.
pub open spec fn parse_begin(s: Seq<u8>, pos: int, version: Version) -> Parsed<nat> {
    let w = version.spec_offset_width();
    if 0 <= pos && pos + w <= s.len() {
        Ok((be_value(s.subrange(pos, pos + w)), pos + w))
    } else {
        Err(ReadErrorView::UnexpectedEndOfInput)
    }
}

/// What follows the shape of a variable: its attributes, its type, its size,
/// which is passed over, and the offset of its data.
pub open spec fn parse_var_rest(
    s: Seq<u8>,
    pos: int,
    name: Seq<char>,
    ids: Seq<int>,
    version: Version,
) -> Parsed<(VariableView, nat)> {
    match parse_attr_list(s, pos) {
        Err(e) => Err(e),
        Ok((attrs, pos1)) => match parse_u32(s, pos1) {
            Err(e) => Err(e),
            Ok((tag, pos2)) => match DataType::spec_from_code(tag) {
                None => Err(ReadErrorView::InvalidTypeTag(tag as u32)),
                Some(data_type) => match parse_u32(s, pos2) {
                    Err(e) => Err(e),
                    Ok((_, pos3)) => match parse_begin(s, pos3, version) {
                        Err(e) => Err(e),
                        Ok((begin, pos4)) => Ok(
                            ((VariableView { name, data_type, dim_ids: ids, attrs }, begin), pos4),
                        ),
                    },
                },
            },
        },
    }
}

/// The variable at `pos`, and the offset of its data. A shape that holds the
/// unlimited dimension twice, or elsewhere than in the first place, is
/// refused.
pub open spec fn parse_var(s: Seq<u8>, pos: int, dims: Seq<DimensionView>, version: Version)
    -> Parsed<(VariableView, nat)> {
    match parse_name(s, pos) {
        Err(e) => Err(e),
        Ok((name, pos1)) => match parse_u32(s, pos1) {
            Err(e) => Err(e),
            Ok((count, pos2)) => match parse_ids(s, pos2, count, dims.len()) {
                Err(e) => Err(e),
                Ok((ids, pos3)) => if unlimited_uses(dims, ids) >= 2 {
                    Err(
                        ReadErrorView::InvalidDataSet(
                            InvalidDataSetView::UnlimitedDimensionUsedMoreThanOnce(name),
                        ),
                    )
                } else if unlimited_uses(dims, ids) == 1 && !dims[ids[0]].is_unlimited() {
                    Err(
                        ReadErrorView::InvalidDataSet(
                            InvalidDataSetView::UnlimitedDimensionNotFirst(name),
                        ),
                    )
                } else {
                    parse_var_rest(s, pos3, name, ids, version)
                },
            },
        },
    }
}

/// The `count` variables from `pos` on, and the offsets of their data. Two
/// variables of one name are refused.
pub open spec fn parse_vars(
    s: Seq<u8>,
    pos: int,
    count: nat,
    dims: Seq<DimensionView>,
    version: Version,
) -> Parsed<(Seq<VariableView>, Seq<nat>)>
    decreases count,
{
    if count == 0 {
        Ok(((Seq::empty(), Seq::empty()), pos))
    } else {
        match parse_vars(s, pos, (count - 1) as nat, dims, version) {
            Err(e) => Err(e),
            Ok(((vars, begins), p)) => match parse_var(s, p, dims, version) {
                Err(e) => Err(e),
                Ok(((var, begin), q)) => if find_named(vars, var.name) is Some {
                    Err(
                        ReadErrorView::InvalidDataSet(
                            InvalidDataSetView::VariableAlreadyExists(var.name),
                        ),
                    )
                } else {
                    Ok(((vars.push(var), begins.push(begin)), q))
                },
            },
        }
    }
}

/// The list of variables at `pos`.
pub open spec fn parse_var_list(s: Seq<u8>, pos: int, dims: Seq<DimensionView>, version: Version)
    -> Parsed<(Seq<VariableView>, Seq<nat>)> {
    match parse_list_head(s, pos, VARIABLE_TAG as nat) {
        Err(e) => Err(e),
        Ok((count, p)) => parse_vars(s, p, count, dims, version),
    }
}

/// The version that the first four bytes announce.
pub open spec fn parse_magic(s: Seq<u8>) -> Result<Version, ReadErrorView> {
    if s.len() < 4 {
        Err(ReadErrorView::UnexpectedEndOfInput)
    } else if s[0] != 0x43 || s[1] != 0x44 || s[2] != 0x46 {
        Err(ReadErrorView::InvalidMagic)
    } else if s[3] == 1 {
        Ok(Version::Classic)
    } else if s[3] == 2 {
        Ok(Version::Offset64Bit)
    } else {
        Err(ReadErrorView::InvalidVersion(s[3]))
    }
}

/// The number of records that the field holds: the mark of a file that was
/// being streamed, `0xffff_ffff`, is read as zero.
pub open spec fn records_of_field(field: nat) -> nat {
    if field == 0xffff_ffff {
        0
    } else {
        field
    }
}

/// The header that the bytes open with, and its length.
pub open spec fn parse_header(s: Seq<u8>) -> Parsed<HeaderView> {
    match parse_magic(s) {
        Err(e) => Err(e),
        Ok(version) => match parse_u32(s, 4) {
            Err(e) => Err(e),
            Ok((field, pos1)) => {
                let num_records = records_of_field(field);
                match parse_dim_list(s, pos1, num_records) {
                    Err(e) => Err(e),
                    Ok((dims, pos2)) => match parse_attr_list(s, pos2) {
                        Err(e) => Err(e),
                        Ok((attrs, pos3)) => match parse_var_list(s, pos3, dims, version) {
                            Err(e) => Err(e),
                            Ok(((vars, begins), pos4)) => Ok(
                                (
                                    HeaderView {
                                        version,
                                        num_records,
                                        data_set: DataSetView { dims, attrs, vars },
                                        begins,
                                    },
                                    pos4,
                                ),
                            ),
                        },
                    },
                }
            },
        },
    }
}

/// `String::from_utf8`: gives the text that the bytes encode in UTF-8, and
/// nothing where the bytes are not UTF-8.
#[verifier::external_body]
fn text_of_utf8(bytes: Vec<u8>) -> (r: Option<String>)
    ensures
        r is Some <==> valid_utf8(bytes@),
        r matches Some(text) ==> text@ == decode_utf8(bytes@),
{
    String::from_utf8(bytes).ok()
}

/// Reads the number in the four bytes at `pos`.
pub(crate) fn read_u32(bytes: &[u8], pos: usize) -> (r: Result<(u32, usize), ReadError>)
    ensures
        match parse_u32(bytes@, pos as int) {
            Ok((v, p)) => r is Ok && r.unwrap().0 == v && r.unwrap().1 == p && p <= bytes@.len(),
            Err(e) => r is Err && r.unwrap_err()@ == e,
        },
{
    let n: usize = bytes.len();
    if n < 4 || pos > n - 4 {
        return Err(ReadError::UnexpectedEndOfInput);
    }
    proof {
        lemma_be_value_bound(bytes@.subrange(pos as int, pos + 4));
        lemma_pow256_values();
    }
    Ok((get_u32(bytes, pos), pos + 4))
}

/// Where reading goes on after `len` bytes from `pos` on and the bytes that
/// pad them, if the input holds them all.
fn skip_padded(bytes: &[u8], pos: usize, len: u64) -> (r: Option<usize>)
    requires
        pos <= bytes@.len(),
    ensures
        r is Some <==> pos + round_up_4(len as nat) <= bytes@.len(),
        r matches Some(end) ==> end == pos + round_up_4(len as nat),
{
    proof {
        lemma_round_up_4(len as nat);
    }
    let rest: u64 = (bytes.len() - pos) as u64;
    if len > rest {
        return None;
    }
    let pad: u64 = (4 - len % 4) % 4;
    if pad > rest - len {
        return None;
    }
    Some(pos + (len + pad) as usize)
}

/// Reads the name at `pos`.
pub(crate) fn read_name(bytes: &[u8], pos: usize) -> (r: Result<(String, usize), ReadError>)
    ensures
        match parse_name(bytes@, pos as int) {
            Ok((name, p)) => r is Ok && r.unwrap().0@ == name && r.unwrap().1 == p && p
                <= bytes@.len() && valid_name(name),
            Err(e) => r is Err && r.unwrap_err()@ == e,
        },
{
    let (n, p) = match read_u32(bytes, pos) {
        Err(e) => {
            return Err(e);
        },
        Ok(x) => x,
    };
    let end: usize = match skip_padded(bytes, p, n as u64) {
        None => {
            return Err(ReadError::UnexpectedEndOfInput);
        },
        Some(end) => end,
    };
    proof {
        lemma_round_up_4(n as nat);
    }
    let total: usize = bytes.len();
    assert(p + n <= bytes@.len());
    let stop: usize = p + n as usize;
    let raw = slice_to_vec(slice_subrange(bytes, p, stop));
    let ghost raw_bytes = bytes@.subrange(p as int, p + n);
    assert(raw@ == raw_bytes);
    if !is_valid_name_bytes(raw.as_slice()) {
        return Err(ReadError::InvalidName(raw));
    }
    let copy = raw.clone();
    assert(copy@ =~= raw_bytes);
    match text_of_utf8(raw) {
        None => {
            let e = ReadError::InvalidName(copy);
            assert(e@ == ReadErrorView::InvalidName(raw_bytes));
            Err(e)
        },
        Some(name) => {
            proof {
                decode_utf8_encode_utf8(raw_bytes);
                assert(encode_utf8(name@) == raw_bytes);
                assert(valid_name(name@));
            }
            Ok((name, end))
        },
    }
}

/// Reads the typed values at `pos`.
pub(crate) fn read_values(bytes: &[u8], pos: usize) -> (r: Result<(DataVector, usize), ReadError>)
    ensures
        match parse_values(bytes@, pos as int) {
            Ok((values, p)) => r is Ok && r.unwrap().0@ == values && r.unwrap().1 == p && p
                <= bytes@.len(),
            Err(e) => r is Err && r.unwrap_err()@ == e,
        },
{
    let (tag, pos1) = match read_u32(bytes, pos) {
        Err(e) => {
            return Err(e);
        },
        Ok(x) => x,
    };
    let data_type = match DataType::from_code(tag) {
        None => {
            return Err(ReadError::InvalidTypeTag(tag));
        },
        Some(t) => t,
    };
    let (count, pos2) = match read_u32(bytes, pos1) {
        Err(e) => {
            return Err(e);
        },
        Ok(x) => x,
    };
    let size: u64 = data_type.size_of() as u64;
    assert(count * size <= 0xffff_ffff * 8) by (nonlinear_arith)
        requires
            count <= 0xffff_ffff,
            size <= 8,
    ;
    let len: u64 = count as u64 * size;
    let end: usize = match skip_padded(bytes, pos2, len) {
        None => {
            return Err(ReadError::UnexpectedEndOfInput);
        },
        Some(end) => end,
    };
    proof {
        lemma_round_up_4(len as nat);
    }
    assert(len == count * data_type.spec_size_of());
    let values = DataVector::decode_in_bounds(data_type, bytes, pos2, count as usize);
    assert(values@ == Values {
        data_type,
        elems: elems_at(data_type, bytes@, pos2 as int, count as nat),
    });
    Ok((values, end))
}

/// Reads the number of entries of the list that opens at `pos`.
pub(crate) fn read_list_head(bytes: &[u8], pos: usize, tag: u32) -> (r: Result<
    (u32, usize),
    ReadError,
>)
    ensures
        match parse_list_head(bytes@, pos as int, tag as nat) {
            Ok((count, p)) => r is Ok && r.unwrap().0 == count && r.unwrap().1 == p && p
                <= bytes@.len(),
            Err(e) => r is Err && r.unwrap_err()@ == e,
        },
{
    let (t, pos1) = match read_u32(bytes, pos) {
        Err(e) => {
            return Err(e);
        },
        Ok(x) => x,
    };
    let (count, pos2) = match read_u32(bytes, pos1) {
        Err(e) => {
            return Err(e);
        },
        Ok(x) => x,
    };
    if t == tag || (t == 0 && count == 0) {
        Ok((count, pos2))
    } else {
        Err(ReadError::InvalidTypeTag(t))
    }
}

/// Reads the attribute at `pos`.
pub(crate) fn read_attr(bytes: &[u8], pos: usize) -> (r: Result<(Attribute, usize), ReadError>)
    ensures
        match parse_attr(bytes@, pos as int) {
            Ok((attr, p)) => r is Ok && r.unwrap().0@ == attr && r.unwrap().1 == p && p
                <= bytes@.len() && valid_name(attr.name),
            Err(e) => r is Err && r.unwrap_err()@ == e,
        },
{
    let (name, p) = match read_name(bytes, pos) {
        Err(e) => {
            return Err(e);
        },
        Ok(x) => x,
    };
    let (values, q) = match read_values(bytes, p) {
        Err(e) => {
            return Err(e);
        },
        Ok(x) => x,
    };
    Ok((Attribute { name, values }, q))
}

/// Once the first attributes cannot be read, no more of them can.
pub proof fn lemma_parse_attrs_fails(s: Seq<u8>, pos: int, k: nat, count: nat)
    requires
        k <= count,
    ensures
        parse_attrs(s, pos, k) is Err ==> parse_attrs(s, pos, count) == parse_attrs(s, pos, k),
    decreases count,
{
    if k < count {
        lemma_parse_attrs_fails(s, pos, k, (count - 1) as nat);
    }
}

/// Reads the list of attributes at `pos`.
pub(crate) fn read_attr_list(bytes: &[u8], pos: usize) -> (r: Result<
    (Vec<Attribute>, usize),
    ReadError,
>)
    ensures
        match parse_attr_list(bytes@, pos as int) {
            Ok((attrs, p)) => r is Ok && views(r.unwrap().0@) == attrs && r.unwrap().1 == p && p
                <= bytes@.len(),
            Err(e) => r is Err && r.unwrap_err()@ == e,
        },
{
    let (count, start) = match read_list_head(bytes, pos, ATTRIBUTE_TAG) {
        Err(e) => {
            return Err(e);
        },
        Ok(x) => x,
    };
    let mut attrs: Vec<Attribute> = Vec::new();
    let mut p: usize = start;
    let mut k: u32 = 0;
    assert(views(attrs@) =~= Seq::empty());
    while k < count
        invariant
            k <= count,
            p <= bytes@.len(),
            parse_attr_list(bytes@, pos as int) == parse_attrs(bytes@, start as int, count as nat),
            parse_attrs(bytes@, start as int, k as nat) == Ok::<
                (Seq<AttributeView>, int),
                ReadErrorView,
            >((views(attrs@), p as int)),
        decreases count - k,
    {
        let ghost before = views(attrs@);
        match read_attr(bytes, p) {
            Err(e) => {
                proof {
                    lemma_parse_attrs_fails(bytes@, start as int, (k + 1) as nat, count as nat);
                }
                return Err(e);
            },
            Ok((attr, q)) => {
                if find_attr(&attrs, attr.name.as_str()).is_some() {
                    proof {
                        lemma_parse_attrs_fails(bytes@, start as int, (k + 1) as nat, count as nat);
                    }
                    return Err(
                        ReadError::InvalidDataSet(
                            InvalidDataSet::AttributeAlreadyExists(attr.name),
                        ),
                    );
                }
                attrs.push(attr);
                assert(views(attrs@) =~= before.push(attr@));
                p = q;
            },
        }
        k += 1;
    }
    Ok((attrs, p))
}

/// Reads the dimension at `pos`.
pub(crate) fn read_dim(bytes: &[u8], pos: usize, num_records: u32) -> (r: Result<
    (Dimension, usize),
    ReadError,
>)
    ensures
        match parse_dim(bytes@, pos as int, num_records as nat) {
            Ok((dim, p)) => r is Ok && r.unwrap().0@ == dim && r.unwrap().1 == p && p
                <= bytes@.len(),
            Err(e) => r is Err && r.unwrap_err()@ == e,
        },
{
    let (name, p) = match read_name(bytes, pos) {
        Err(e) => {
            return Err(e);
        },
        Ok(x) => x,
    };
    let (size, q) = match read_u32(bytes, p) {
        Err(e) => {
            return Err(e);
        },
        Ok(x) => x,
    };
    let dim = if size == 0 {
        Dimension { name, size: DimensionSize::Unlimited(num_records as usize) }
    } else {
        Dimension { name, size: DimensionSize::Fixed(size as usize) }
    };
    Ok((dim, q))
}

/// Once the first dimensions cannot be read, no more of them can.
pub proof fn lemma_parse_dims_fails(s: Seq<u8>, pos: int, k: nat, count: nat, num_records: nat)
    requires
        k <= count,
    ensures
        parse_dims(s, pos, k, num_records) is Err ==> parse_dims(s, pos, count, num_records) == parse_dims(s, pos, k, num_records),
    decreases count,
{
    if k < count {
        lemma_parse_dims_fails(s, pos, k, (count - 1) as nat, num_records);
    }
}

/// Reads the list of dimensions at `pos`.
pub(crate) fn read_dim_list(bytes: &[u8], pos: usize, num_records: u32) -> (r: Result<
    (Vec<Dimension>, usize),
    ReadError,
>)
    ensures
        match parse_dim_list(bytes@, pos as int, num_records as nat) {
            Ok((dims, p)) => r is Ok && views(r.unwrap().0@) == dims && r.unwrap().1 == p && p
                <= bytes@.len(),
            Err(e) => r is Err && r.unwrap_err()@ == e,
        },
{
    let (count, start) = match read_list_head(bytes, pos, DIMENSION_TAG) {
        Err(e) => {
            return Err(e);
        },
        Ok(x) => x,
    };
    let mut dims: Vec<Dimension> = Vec::new();
    let mut p: usize = start;
    let mut k: u32 = 0;
    assert(views(dims@) =~= Seq::empty());
    while k < count
        invariant
            k <= count,
            p <= bytes@.len(),
            parse_dim_list(bytes@, pos as int, num_records as nat) == parse_dims(
                bytes@,
                start as int,
                count as nat,
                num_records as nat,
            ),
            parse_dims(bytes@, start as int, k as nat, num_records as nat) == Ok::<
                (Seq<DimensionView>, int),
                ReadErrorView,
            >((views(dims@), p as int)),
        decreases count - k,
    {
        let ghost before = views(dims@);
        proof {
            lemma_parse_dims_fails(
                bytes@,
                start as int,
                (k + 1) as nat,
                count as nat,
                num_records as nat,
            );
        }
        match read_dim(bytes, p, num_records) {
            Err(e) => {
                return Err(e);
            },
            Ok((dim, q)) => {
                if dim.is_unlimited() {
                    if let Some(i) = crate::data_set::find_unlimited_dim(&dims) {
                        return Err(
                            ReadError::InvalidDataSet(
                                InvalidDataSet::UnlimitedAlreadyExists(dims[i].name()),
                            ),
                        );
                    }
                }
                if crate::data_set::find_dim(&dims, dim.name.as_str()).is_some() {
                    return Err(
                        ReadError::InvalidDataSet(InvalidDataSet::DimensionAlreadyExists(dim.name)),
                    );
                }
                dims.push(dim);
                assert(views(dims@) =~= before.push(dim@));
                p = q;
            },
        }
        k += 1;
    }
    Ok((dims, p))
}

/// Once the first places of a shape cannot be read, no more of them can.
pub proof fn lemma_parse_ids_fails(s: Seq<u8>, pos: int, k: nat, count: nat, num_dims: nat)
    requires
        k <= count,
    ensures
        parse_ids(s, pos, k, num_dims) is Err ==> parse_ids(s, pos, count, num_dims) == parse_ids(s, pos, k, num_dims),
    decreases count,
{
    if k < count {
        lemma_parse_ids_fails(s, pos, k, (count - 1) as nat, num_dims);
    }
}

/// Reads the shape of `count` places at `pos`.
pub(crate) fn read_ids(bytes: &[u8], pos: usize, count: u32, num_dims: usize) -> (r: Result<
    (Vec<usize>, usize),
    ReadError,
>)
    requires
        pos <= bytes@.len(),
    ensures
        match parse_ids(bytes@, pos as int, count as nat, num_dims as nat) {
            Ok((ids, p)) => r is Ok && ids_view(r.unwrap().0@) == ids && r.unwrap().1 == p && p
                <= bytes@.len() && forall|j: int|
                0 <= j < r.unwrap().0@.len() ==> #[trigger] r.unwrap().0@[j] < num_dims,
            Err(e) => r is Err && r.unwrap_err()@ == e,
        },
{
    let mut ids: Vec<usize> = Vec::new();
    let mut p: usize = pos;
    let mut k: u32 = 0;
    assert(ids_view(ids@) =~= Seq::empty());
    while k < count
        invariant
            k <= count,
            p <= bytes@.len(),
            parse_ids(bytes@, pos as int, k as nat, num_dims as nat) == Ok::<
                (Seq<int>, int),
                ReadErrorView,
            >((ids_view(ids@), p as int)),
            forall|j: int| 0 <= j < ids@.len() ==> #[trigger] ids@[j] < num_dims,
        decreases count - k,
    {
        let ghost before = ids_view(ids@);
        proof {
            lemma_parse_ids_fails(bytes@, pos as int, (k + 1) as nat, count as nat, num_dims as nat);
        }
        match read_u32(bytes, p) {
            Err(e) => {
                return Err(e);
            },
            Ok((id, q)) => {
                if id as u64 >= num_dims as u64 {
                    return Err(ReadError::DimensionNotFound(id));
                }
                ids.push(id as usize);
                assert(ids_view(ids@) =~= before.push(id as int));
                p = q;
            },
        }
        k += 1;
    }
    Ok((ids, p))
}

/// The number of places of the shape that hold an unlimited dimension.
fn count_unlimited_uses(dims: &Vec<Dimension>, ids: &Vec<usize>) -> (r: usize)
    requires
        forall|j: int| 0 <= j < ids@.len() ==> #[trigger] ids@[j] < dims@.len(),
    ensures
        r == unlimited_uses(views(dims@), ids_view(ids@)),
{
    let n: usize = ids.len();
    let ghost all = ids_view(ids@);
    let mut uses: usize = 0;
    let mut k: usize = 0;
    assert(all.take(0) =~= Seq::empty());
    while k < n
        invariant
            k <= n,
            n == ids@.len(),
            all == ids_view(ids@),
            forall|j: int| 0 <= j < ids@.len() ==> #[trigger] ids@[j] < dims@.len(),
            uses == unlimited_uses(views(dims@), all.take(k as int)),
            uses <= k,
        decreases n - k,
    {
        let id: usize = ids[k];
        proof {
            assert(all.take(k + 1).drop_last() =~= all.take(k as int));
            assert(all.take(k + 1).last() == id as int);
        }
        if dims[id].is_unlimited() {
            uses += 1;
        }
        k += 1;
    }
    assert(all.take(n as int) =~= all);
    uses
}

/// Reads the offset at `pos`, in the width of the version.
pub(crate) fn read_begin(bytes: &[u8], pos: usize, version: Version) -> (r: Result<
    (u64, usize),
    ReadError,
>)
    ensures
        match parse_begin(bytes@, pos as int, version) {
            Ok((v, p)) => r is Ok && r.unwrap().0 == v && r.unwrap().1 == p && p <= bytes@.len(),
            Err(e) => r is Err && r.unwrap_err()@ == e,
        },
{
    let n: usize = bytes.len();
    let w: usize = version.offset_width();
    if n < w || pos > n - w {
        return Err(ReadError::UnexpectedEndOfInput);
    }
    match version {
        Version::Classic => Ok((get_u32(bytes, pos) as u64, pos + 4)),
        Version::Offset64Bit => Ok((get_u64(bytes, pos), pos + 8)),
    }
}

/// Reads what follows the shape of a variable.
fn read_var_rest(
    bytes: &[u8],
    pos: usize,
    name: String,
    dim_ids: Vec<usize>,
    version: Version,
) -> (r: Result<(Variable, u64, usize), ReadError>)
    ensures
        match parse_var_rest(bytes@, pos as int, name@, ids_view(dim_ids@), version) {
            Ok(((var, begin), p)) => r is Ok && r.unwrap().0@ == var && r.unwrap().1 == begin
                && r.unwrap().2 == p && p <= bytes@.len(),
            Err(e) => r is Err && r.unwrap_err()@ == e,
        },
{
    let (attrs, pos1) = match read_attr_list(bytes, pos) {
        Err(e) => {
            return Err(e);
        },
        Ok(x) => x,
    };
    let (tag, pos2) = match read_u32(bytes, pos1) {
        Err(e) => {
            return Err(e);
        },
        Ok(x) => x,
    };
    let data_type = match DataType::from_code(tag) {
        None => {
            return Err(ReadError::InvalidTypeTag(tag));
        },
        Some(t) => t,
    };
    let (_, pos3) = match read_u32(bytes, pos2) {
        Err(e) => {
            return Err(e);
        },
        Ok(x) => x,
    };
    let (begin, pos4) = match read_begin(bytes, pos3, version) {
        Err(e) => {
            return Err(e);
        },
        Ok(x) => x,
    };
    let var = Variable { name, data_type, dim_ids, attrs };
    Ok((var, begin, pos4))
}

/// Reads the variable at `pos`.
pub(crate) fn read_var(bytes: &[u8], pos: usize, dims: &Vec<Dimension>, version: Version) -> (r:
    Result<(Variable, u64, usize), ReadError>)
    ensures
        match parse_var(bytes@, pos as int, views(dims@), version) {
            Ok(((var, begin), p)) => r is Ok && r.unwrap().0@ == var && r.unwrap().1 == begin
                && r.unwrap().2 == p && p <= bytes@.len(),
            Err(e) => r is Err && r.unwrap_err()@ == e,
        },
{
    let (name, pos1) = match read_name(bytes, pos) {
        Err(e) => {
            return Err(e);
        },
        Ok(x) => x,
    };
    let (count, pos2) = match read_u32(bytes, pos1) {
        Err(e) => {
            return Err(e);
        },
        Ok(x) => x,
    };
    let (ids, pos3) = match read_ids(bytes, pos2, count, dims.len()) {
        Err(e) => {
            return Err(e);
        },
        Ok(x) => x,
    };
    let uses: usize = count_unlimited_uses(dims, &ids);
    if uses >= 2 {
        return Err(
            ReadError::InvalidDataSet(InvalidDataSet::UnlimitedDimensionUsedMoreThanOnce(name)),
        );
    }
    if uses == 1 {
        proof {
            crate::data_set::model::lemma_unlimited_uses(views(dims@), ids_view(ids@));
        }
        let first: usize = ids[0];
        assert(ids_view(ids@)[0] == first as int);
        if !dims[first].is_unlimited() {
            return Err(ReadError::InvalidDataSet(InvalidDataSet::UnlimitedDimensionNotFirst(name)));
        }
    }
    read_var_rest(bytes, pos3, name, ids, version)
}

/// Once the first variables cannot be read, no more of them can.
pub proof fn lemma_parse_vars_fails(
    s: Seq<u8>,
    pos: int,
    k: nat,
    count: nat,
    dims: Seq<DimensionView>,
    version: Version,
)
    requires
        k <= count,
    ensures
        parse_vars(s, pos, k, dims, version) is Err ==> parse_vars(s, pos, count, dims, version) == parse_vars(s, pos, k, dims, version),
    decreases count,
{
    if k < count {
        lemma_parse_vars_fails(s, pos, k, (count - 1) as nat, dims, version);
    }
}

/// Reads the list of variables at `pos`.
pub(crate) fn read_var_list(bytes: &[u8], pos: usize, dims: &Vec<Dimension>, version: Version) -> (r:
    Result<(Vec<Variable>, Vec<u64>, usize), ReadError>)
    ensures
        match parse_var_list(bytes@, pos as int, views(dims@), version) {
            Ok(((vars, begins), p)) => r is Ok && views(r.unwrap().0@) == vars
                && crate::header::begins_view(r.unwrap().1@) == begins && r.unwrap().2 == p && p
                <= bytes@.len(),
            Err(e) => r is Err && r.unwrap_err()@ == e,
        },
{
    let (count, start) = match read_list_head(bytes, pos, VARIABLE_TAG) {
        Err(e) => {
            return Err(e);
        },
        Ok(x) => x,
    };
    let mut vars: Vec<Variable> = Vec::new();
    let mut begins: Vec<u64> = Vec::new();
    let mut p: usize = start;
    let mut k: u32 = 0;
    assert(views(vars@) =~= Seq::empty());
    assert(crate::header::begins_view(begins@) =~= Seq::empty());
    while k < count
        invariant
            k <= count,
            p <= bytes@.len(),
            parse_var_list(bytes@, pos as int, views(dims@), version) == parse_vars(
                bytes@,
                start as int,
                count as nat,
                views(dims@),
                version,
            ),
            parse_vars(bytes@, start as int, k as nat, views(dims@), version) == Ok::<
                ((Seq<VariableView>, Seq<nat>), int),
                ReadErrorView,
            >(((views(vars@), crate::header::begins_view(begins@)), p as int)),
        decreases count - k,
    {
        let ghost before = views(vars@);
        let ghost before_begins = crate::header::begins_view(begins@);
        proof {
            lemma_parse_vars_fails(
                bytes@,
                start as int,
                (k + 1) as nat,
                count as nat,
                views(dims@),
                version,
            );
        }
        match read_var(bytes, p, dims, version) {
            Err(e) => {
                return Err(e);
            },
            Ok((var, begin, q)) => {
                if crate::data_set::find_var(&vars, var.name.as_str()).is_some() {
                    return Err(
                        ReadError::InvalidDataSet(InvalidDataSet::VariableAlreadyExists(var.name)),
                    );
                }
                vars.push(var);
                begins.push(begin);
                assert(views(vars@) =~= before.push(var@));
                assert(crate::header::begins_view(begins@) =~= before_begins.push(begin as nat));
                p = q;
            },
        }
        k += 1;
    }
    Ok((vars, begins, p))
}

/// Reads the version that the first four bytes announce.
pub(crate) fn read_magic(bytes: &[u8]) -> (r: Result<Version, ReadError>)
    ensures
        match parse_magic(bytes@) {
            Ok(version) => r == Ok::<Version, ReadError>(version),
            Err(e) => r is Err && r.unwrap_err()@ == e,
        },
{
    if bytes.len() < 4 {
        return Err(ReadError::UnexpectedEndOfInput);
    }
    if bytes[0] != 0x43 || bytes[1] != 0x44 || bytes[2] != 0x46 {
        return Err(ReadError::InvalidMagic);
    }
    if bytes[3] == 1 {
        Ok(Version::Classic)
    } else if bytes[3] == 2 {
        Ok(Version::Offset64Bit)
    } else {
        Err(ReadError::InvalidVersion(bytes[3]))
    }
}

} // verus!
