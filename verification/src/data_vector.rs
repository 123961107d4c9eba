//! Typed values, and how they stand on disk.
use crate::data_type::DataType;
use crate::error::{CoercionError, ReadError, ReadErrorView};
use crate::primitive::{
    be_bytes, be_value, bits_i16, bits_i32, bits_i8, get_u16, get_u32, get_u64, get_u8, i16_bits,
    i32_bits, i8_bits, lemma_be_bytes_len, lemma_be_value_bound, lemma_be_value_of_bytes,
    lemma_pow256_values, pow256, put_u16, put_u32, put_u64, put_u8, to_signed, to_unsigned,
};
use vstd::prelude::*;

verus! {

/// The values of a variable or of an attribute, all of one type.
///
/// A floating point value is held as its IEEE 754 bit pattern, which is what
/// the format stores.
#[derive(Debug, PartialEq, Eq)]
pub enum DataVector {
    I8(Vec<i8>),
    U8(Vec<u8>),
    I16(Vec<i16>),
    I32(Vec<i32>),
    /// Single precision values, as bit patterns.
    F32(Vec<u32>),
    /// Double precision values, as bit patterns.
    F64(Vec<u64>),
}

/// Typed values as contracts see them: the type, and one number for each
/// element (for a floating point type, the bit pattern as a natural number).
pub ghost struct Values {
    pub data_type: DataType,
    pub elems: Seq<int>,
}

impl View for DataVector {
    type V = Values;

    open spec fn view(&self) -> Values {
        match self {
            DataVector::I8(v) => Values {
                data_type: DataType::I8,
                elems: Seq::new(v@.len(), |i: int| v@[i] as int),
            },
            DataVector::U8(v) => Values {
                data_type: DataType::U8,
                elems: Seq::new(v@.len(), |i: int| v@[i] as int),
            },
            DataVector::I16(v) => Values {
                data_type: DataType::I16,
                elems: Seq::new(v@.len(), |i: int| v@[i] as int),
            },
            DataVector::I32(v) => Values {
                data_type: DataType::I32,
                elems: Seq::new(v@.len(), |i: int| v@[i] as int),
            },
            DataVector::F32(v) => Values {
                data_type: DataType::F32,
                elems: Seq::new(v@.len(), |i: int| v@[i] as int),
            },
            DataVector::F64(v) => Values {
                data_type: DataType::F64,
                elems: Seq::new(v@.len(), |i: int| v@[i] as int),
            },
        }
    }
}

/// Every element is a number that the type admits.
pub open spec fn all_admitted(dt: DataType, elems: Seq<int>) -> bool {
    forall|i: int| 0 <= i < elems.len() ==> dt.admits(#[trigger] elems[i])
}

impl Values {
    /// Every element is a number that the type admits.
    pub open spec fn admitted(self) -> bool {
        all_admitted(self.data_type, self.elems)
    }
}

/// The natural number whose bytes stand for the element `v` of type `dt`.
pub open spec fn elem_bits(dt: DataType, v: int) -> nat {
    if dt.is_signed() {
        to_unsigned(v, dt.spec_size_of())
    } else {
        v as nat
    }
}

/// The element of type `dt` that the natural number `u` stands for.
pub open spec fn elem_of_bits(dt: DataType, u: nat) -> int {
    if dt.is_signed() {
        to_signed(u, dt.spec_size_of())
    } else {
        u as int
    }
}

/// The bytes of one element.
pub open spec fn elem_bytes(dt: DataType, v: int) -> Seq<u8> {
    be_bytes(elem_bits(dt, v), dt.spec_size_of())
}

/// The element that the bytes stand for.
pub open spec fn elem_of_bytes(dt: DataType, bytes: Seq<u8>) -> int {
    elem_of_bits(dt, be_value(bytes))
}

/// The bytes of a run of elements, one element after the other.
pub open spec fn elems_bytes(dt: DataType, elems: Seq<int>) -> Seq<u8>
    decreases elems.len(),
{
    if elems.len() == 0 {
        Seq::empty()
    } else {
        elems_bytes(dt, elems.drop_last()) + elem_bytes(dt, elems.last())
    }
}

/// The `count` elements of type `dt` that stand in `s` from `pos` on.
pub open spec fn elems_at(dt: DataType, s: Seq<u8>, pos: int, count: nat) -> Seq<int> {
    Seq::new(
        count,
        |k: int|
            elem_of_bytes(
                dt,
                s.subrange(pos + k * dt.spec_size_of(), pos + (k + 1) * dt.spec_size_of()),
            ),
    )
}

/// An element that the type admits is found again from its bytes.
pub proof fn lemma_elem_round_trip(dt: DataType, v: int)
    requires
        dt.admits(v),
    ensures
        elem_bytes(dt, v).len() == dt.spec_size_of(),
        elem_bits(dt, v) < pow256(dt.spec_size_of()),
        elem_of_bytes(dt, elem_bytes(dt, v)) == v,
{
    lemma_pow256_values();
    lemma_be_bytes_len(elem_bits(dt, v), dt.spec_size_of());
    lemma_be_value_of_bytes(elem_bits(dt, v), dt.spec_size_of());
}

/// Whatever the bytes, the element read from as many bytes as the type takes
/// is one that the type admits.
pub proof fn lemma_elem_of_bytes_admitted(dt: DataType, bytes: Seq<u8>)
    requires
        bytes.len() == dt.spec_size_of(),
    ensures
        dt.admits(elem_of_bytes(dt, bytes)),
{
    lemma_pow256_values();
    lemma_be_value_bound(bytes);
}

pub proof fn lemma_elems_bytes_len(dt: DataType, elems: Seq<int>)
    ensures
        elems_bytes(dt, elems).len() == elems.len() * dt.spec_size_of(),
    decreases elems.len(),
{
    if elems.len() > 0 {
        lemma_elems_bytes_len(dt, elems.drop_last());
        lemma_be_bytes_len(elem_bits(dt, elems.last()), dt.spec_size_of());
        let n = elems.len() as int;
        let w = dt.spec_size_of() as int;
        assert((n - 1) * w + w == n * w) by (nonlinear_arith);
    }
}

/// Where the bytes of admitted elements stand in `s` from `pos` on, the
/// elements are read back from there.
pub proof fn lemma_elems_round_trip(dt: DataType, elems: Seq<int>, s: Seq<u8>, pos: int)
    requires
        all_admitted(dt, elems),
        0 <= pos,
        pos + elems_bytes(dt, elems).len() <= s.len(),
        s.subrange(pos, pos + elems_bytes(dt, elems).len()) == elems_bytes(dt, elems),
    ensures
        elems_at(dt, s, pos, elems.len()) == elems,
    decreases elems.len(),
{
    let w = dt.spec_size_of() as int;
    let n = elems.len() as int;
    lemma_elems_bytes_len(dt, elems);
    if n > 0 {
        let front = elems.drop_last();
        let all = elems_bytes(dt, elems);
        let head = elems_bytes(dt, front);
        lemma_elems_bytes_len(dt, front);
        assert((n - 1) * w + w == n * w) by (nonlinear_arith);
        assert(all_admitted(dt, front)) by {
            assert forall|i: int| 0 <= i < front.len() implies dt.admits(#[trigger] front[i]) by {
                assert(front[i] == elems[i]);
            }
        }
        assert(dt.admits(elems[n - 1]));
        lemma_elem_round_trip(dt, elems.last());
        let region = s.subrange(pos, pos + all.len());
        assert(s.subrange(pos, pos + head.len()) =~= region.subrange(0, head.len() as int));
        assert(region.subrange(0, head.len() as int) =~= head);
        lemma_elems_round_trip(dt, front, s, pos);
        assert(s.subrange(pos + (n - 1) * w, pos + n * w) =~= region.subrange(
            head.len() as int,
            all.len() as int,
        ));
        assert(region.subrange(head.len() as int, all.len() as int) =~= elem_bytes(
            dt,
            elems.last(),
        ));
        let got = elems_at(dt, s, pos, elems.len());
        let got_front = elems_at(dt, s, pos, front.len());
        assert forall|k: int| 0 <= k < n implies got[k] == elems[k] by {
            if k < n - 1 {
                assert(got[k] == got_front[k]);
                assert(front[k] == elems[k]);
            } else {
                assert((k + 1) * w == n * w);
            }
        }
        assert(got =~= elems);
    } else {
        assert(elems_at(dt, s, pos, elems.len()) =~= elems);
    }
}

/// Elements read from bytes are elements that the type admits.
pub proof fn lemma_elems_at_admitted(dt: DataType, s: Seq<u8>, pos: int, count: nat)
    requires
        0 <= pos,
        pos + count * dt.spec_size_of() <= s.len(),
    ensures
        all_admitted(dt, elems_at(dt, s, pos, count)),
{
    let w = dt.spec_size_of() as int;
    let e = elems_at(dt, s, pos, count);
    assert forall|k: int| 0 <= k < e.len() implies dt.admits(#[trigger] e[k]) by {
        assert(0 <= k * w && (k + 1) * w <= count * w && (k + 1) * w == k * w + w)
            by (nonlinear_arith)
            requires
                0 <= k < count,
                w >= 0,
        ;
        lemma_elem_of_bytes_admitted(dt, s.subrange(pos + k * w, pos + (k + 1) * w));
    }
}

/// Reads from `pos` on the number that `size` bytes stand for.
fn get_bits(bytes: &[u8], pos: usize, size: usize) -> (r: u64)
    requires
        size == 1 || size == 2 || size == 4 || size == 8,
        pos + size <= bytes@.len(),
    ensures
        r == be_value(bytes@.subrange(pos as int, pos + size)),
{
    if size == 1 {
        get_u8(bytes, pos) as u64
    } else if size == 2 {
        get_u16(bytes, pos) as u64
    } else if size == 4 {
        get_u32(bytes, pos) as u64
    } else {
        get_u64(bytes, pos)
    }
}

/// Appends the `size` bytes that stand for `bits`.
fn put_bits(out: &mut Vec<u8>, bits: u64, size: usize)
    requires
        size == 1 || size == 2 || size == 4 || size == 8,
        bits < pow256(size as nat),
    ensures
        final(out)@ == old(out)@ + be_bytes(bits as nat, size as nat),
{
    proof {
        lemma_pow256_values();
    }
    if size == 1 {
        put_u8(out, bits as u8);
    } else if size == 2 {
        put_u16(out, bits as u16);
    } else if size == 4 {
        put_u32(out, bits as u32);
    } else {
        put_u64(out, bits);
    }
}

impl DataVector {
    /// No values, of the given type.
    pub fn new(data_type: DataType) -> (r: DataVector)
        ensures
            r@.data_type == data_type,
            r@.elems == Seq::<int>::empty(),
    {
        let r = match data_type {
            DataType::I8 => DataVector::I8(Vec::new()),
            DataType::U8 => DataVector::U8(Vec::new()),
            DataType::I16 => DataVector::I16(Vec::new()),
            DataType::I32 => DataVector::I32(Vec::new()),
            DataType::F32 => DataVector::F32(Vec::new()),
            DataType::F64 => DataVector::F64(Vec::new()),
        };
        assert(r@.elems =~= Seq::<int>::empty());
        r
    }

    /// The type of the values.
    pub fn data_type(&self) -> (r: DataType)
        ensures
            r == self@.data_type,
    {
        match self {
            DataVector::I8(_) => DataType::I8,
            DataVector::U8(_) => DataType::U8,
            DataVector::I16(_) => DataType::I16,
            DataVector::I32(_) => DataType::I32,
            DataVector::F32(_) => DataType::F32,
            DataVector::F64(_) => DataType::F64,
        }
    }

    /// The number of values.
    pub fn len(&self) -> (r: usize)
        ensures
            r == self@.elems.len(),
    {
        match self {
            DataVector::I8(v) => v.len(),
            DataVector::U8(v) => v.len(),
            DataVector::I16(v) => v.len(),
            DataVector::I32(v) => v.len(),
            DataVector::F32(v) => v.len(),
            DataVector::F64(v) => v.len(),
        }
    }

    /// The values of every vector are numbers that its type admits.
    pub proof fn lemma_admitted(self)
        ensures
            self@.admitted(),
    {
    }

    /// The natural number whose bytes stand for the value at `i`.
    fn bits_at(&self, i: usize) -> (r: u64)
        requires
            i < self@.elems.len(),
        ensures
            r == elem_bits(self@.data_type, self@.elems[i as int]),
            r < pow256(self@.data_type.spec_size_of()),
    {
        proof {
            lemma_pow256_values();
        }
        match self {
            DataVector::I8(v) => i8_bits(v[i]) as u64,
            DataVector::U8(v) => v[i] as u64,
            DataVector::I16(v) => i16_bits(v[i]) as u64,
            DataVector::I32(v) => i32_bits(v[i]) as u64,
            DataVector::F32(v) => v[i] as u64,
            DataVector::F64(v) => v[i],
        }
    }

    /// Appends the value that `bits` stands for.
    fn push_bits(&mut self, bits: u64)
        requires
            bits < pow256(old(self)@.data_type.spec_size_of()),
        ensures
            final(self)@.data_type == old(self)@.data_type,
            final(self)@.elems == old(self)@.elems.push(
                elem_of_bits(old(self)@.data_type, bits as nat),
            ),
    {
        proof {
            lemma_pow256_values();
        }
        match self {
            DataVector::I8(v) => {
                v.push(bits_i8(bits as u8));
            },
            DataVector::U8(v) => {
                v.push(bits as u8);
            },
            DataVector::I16(v) => {
                v.push(bits_i16(bits as u16));
            },
            DataVector::I32(v) => {
                v.push(bits_i32(bits as u32));
            },
            DataVector::F32(v) => {
                v.push(bits as u32);
            },
            DataVector::F64(v) => {
                v.push(bits);
            },
        }
        assert(self@.elems =~= old(self)@.elems.push(
            elem_of_bits(old(self)@.data_type, bits as nat),
        ));
    }

    /// Appends to `out` the bytes of the values from `from` up to `to`.
    pub(crate) fn encode_range(&self, out: &mut Vec<u8>, from: usize, to: usize)
        requires
            from <= to <= self@.elems.len(),
        ensures
            final(out)@ == old(out)@ + elems_bytes(
                self@.data_type,
                self@.elems.subrange(from as int, to as int),
            ),
    {
        let size: usize = self.data_type().size_of();
        let ghost dt = self@.data_type;
        let mut i: usize = from;
        assert(self@.elems.subrange(from as int, from as int) =~= Seq::<int>::empty());
        assert(out@ =~= old(out)@ + elems_bytes(dt, Seq::<int>::empty()));
        while i < to
            invariant
                from <= i <= to <= self@.elems.len(),
                dt == self@.data_type,
                size == dt.spec_size_of(),
                out@ == old(out)@ + elems_bytes(dt, self@.elems.subrange(from as int, i as int)),
            decreases to - i,
        {
            let bits: u64 = self.bits_at(i);
            put_bits(out, bits, size);
            proof {
                let before = self@.elems.subrange(from as int, i as int);
                let after = self@.elems.subrange(from as int, i + 1);
                assert(after.drop_last() =~= before);
                assert(after.last() == self@.elems[i as int]);
                assert(out@ =~= old(out)@ + elems_bytes(dt, after));
            }
            i += 1;
        }
    }

    /// Appends to `out` the bytes of all the values.
    pub fn encode(&self, out: &mut Vec<u8>)
        ensures
            final(out)@ == old(out)@ + elems_bytes(self@.data_type, self@.elems),
    {
        let n: usize = self.len();
        assert(self@.elems.subrange(0, n as int) =~= self@.elems);
        self.encode_range(out, 0, n);
    }

    /// Reads `count` values of type `data_type` from the bytes at `pos` on,
    /// or tells that the bytes end before the last of them.
    pub fn decode(data_type: DataType, bytes: &[u8], pos: usize, count: usize) -> (r: Result<
        DataVector,
        ReadError,
    >)
        ensures
            pos + count * data_type.spec_size_of() <= bytes@.len() ==> r is Ok
                && r.unwrap()@.data_type == data_type && r.unwrap()@.elems == elems_at(
                data_type,
                bytes@,
                pos as int,
                count as nat,
            ),
            pos + count * data_type.spec_size_of() > bytes@.len() ==> r is Err
                && r.unwrap_err()@ == ReadErrorView::UnexpectedEndOfInput,
    {
        let len: usize = bytes.len();
        let size: usize = data_type.size_of();
        if pos > len {
            assert(0 <= count * size) by (nonlinear_arith)
                requires
                    count >= 0,
                    size >= 0,
            ;
            return Err(ReadError::UnexpectedEndOfInput);
        }
        let room: usize = (len - pos) / size;
        if count > room {
            assert(count * size > len - pos) by (nonlinear_arith)
                requires
                    count >= room + 1,
                    room == (len - pos) as int / size as int,
                    size >= 1,
                    len - pos >= 0,
            ;
            return Err(ReadError::UnexpectedEndOfInput);
        }
        assert(count * size <= len - pos) by (nonlinear_arith)
            requires
                count <= room,
                room == (len - pos) as int / size as int,
                size >= 1,
                len - pos >= 0,
        ;
        Ok(DataVector::decode_in_bounds(data_type, bytes, pos, count))
    }

    /// Reads `count` values of type `data_type` from the bytes at `pos` on.
    pub(crate) fn decode_in_bounds(data_type: DataType, bytes: &[u8], pos: usize, count: usize) -> (r:
        DataVector)
        requires
            pos + count * data_type.spec_size_of() <= bytes@.len(),
        ensures
            r@.data_type == data_type,
            r@.elems == elems_at(data_type, bytes@, pos as int, count as nat),
    {
        let size: usize = data_type.size_of();
        let mut v = DataVector::new(data_type);
        let mut i: usize = 0;
        let mut off: usize = pos;
        assert(v@.elems =~= elems_at(data_type, bytes@, pos as int, 0));
        while i < count
            invariant
                i <= count,
                size == data_type.spec_size_of(),
                off == pos + i * size,
                pos + count * size <= bytes@.len(),
                v@.data_type == data_type,
                v@.elems == elems_at(data_type, bytes@, pos as int, i as nat),
            decreases count - i,
        {
            assert((i + 1) * size <= count * size && (i + 1) * size == i * size + size)
                by (nonlinear_arith)
                requires
                    i < count,
            ;
            let n: usize = bytes.len();
            let bits: u64 = get_bits(bytes, off, size);
            proof {
                lemma_be_value_bound(bytes@.subrange(off as int, off + size));
            }
            v.push_bits(bits);
            off += size;
            i += 1;
            assert(v@.elems =~= elems_at(data_type, bytes@, pos as int, i as nat));
        }
        v
    }

    /// Appends the values of `other`, which are of the same type.
    pub(crate) fn append(&mut self, other: &DataVector)
        requires
            old(self)@.data_type == other@.data_type,
        ensures
            final(self)@.data_type == old(self)@.data_type,
            final(self)@.elems == old(self)@.elems + other@.elems,
    {
        let n: usize = other.len();
        let mut i: usize = 0;
        assert(self@.elems =~= old(self)@.elems + other@.elems.take(0));
        while i < n
            invariant
                i <= n,
                n == other@.elems.len(),
                self@.data_type == other@.data_type,
                self@.data_type == old(self)@.data_type,
                self@.elems == old(self)@.elems + other@.elems.take(i as int),
            decreases n - i,
        {
            let bits: u64 = other.bits_at(i);
            proof {
                other.lemma_admitted();
                lemma_elem_round_trip(other@.data_type, other@.elems[i as int]);
                lemma_be_value_of_bytes(bits as nat, other@.data_type.spec_size_of());
            }
            self.push_bits(bits);
            assert(self@.elems =~= old(self)@.elems + other@.elems.take(i + 1));
            i += 1;
        }
        assert(other@.elems.take(n as int) =~= other@.elems);
    }

    /// The values from `from` up to `to`, as a vector of their own.
    pub(crate) fn slice(&self, from: usize, to: usize) -> (r: DataVector)
        requires
            from <= to <= self@.elems.len(),
        ensures
            r@.data_type == self@.data_type,
            r@.elems == self@.elems.subrange(from as int, to as int),
    {
        let size: usize = self.data_type().size_of();
        let mut v = DataVector::new(self.data_type());
        let mut i: usize = from;
        assert(v@.elems =~= self@.elems.subrange(from as int, from as int));
        while i < to
            invariant
                from <= i <= to <= self@.elems.len(),
                v@.data_type == self@.data_type,
                v@.elems == self@.elems.subrange(from as int, i as int),
            decreases to - i,
        {
            let bits: u64 = self.bits_at(i);
            proof {
                self.lemma_admitted();
                lemma_elem_round_trip(self@.data_type, self@.elems[i as int]);
                lemma_be_value_of_bytes(bits as nat, self@.data_type.spec_size_of());
            }
            v.push_bits(bits);
            i += 1;
            assert(v@.elems =~= self@.elems.subrange(from as int, i as int));
        }
        v
    }
}

/// The values as values of the type `target`.
///
/// Values of the type asked for are handed back as they are. Between two
/// signed integer types the numbers are kept where each is in the range of
/// the type asked for. Nothing else is converted here.
pub open spec fn spec_coerce(v: Values, target: DataType) -> Result<Values, CoercionError> {
    if v.data_type == target {
        Ok(v)
    } else if !v.data_type.is_signed() || !target.is_signed() {
        Err(CoercionError::DataTypeMismatch)
    } else if all_admitted(target, v.elems) {
        Ok(Values { data_type: target, elems: v.elems })
    } else {
        Err(CoercionError::ValueOutOfRange)
    }
}

/// Text read as signed bytes, or signed bytes read as text: each byte stays
/// the same byte. Values of any other type are not converted.
pub open spec fn spec_reinterpret_bytes(v: Values) -> Option<Values> {
    if v.data_type == DataType::U8 {
        Some(
            Values {
                data_type: DataType::I8,
                elems: Seq::new(v.elems.len(), |i: int| to_signed(v.elems[i] as nat, 1)),
            },
        )
    } else if v.data_type == DataType::I8 {
        Some(
            Values {
                data_type: DataType::U8,
                elems: Seq::new(v.elems.len(), |i: int| to_unsigned(v.elems[i], 1) as int),
            },
        )
    } else {
        None
    }
}

/// Where a conversion to a signed integer type succeeds, the conversion to
/// any signed integer type at least as wide succeeds too, with the same
/// numbers.
pub proof fn lemma_coercion_monotone(v: Values, narrow: DataType, wide: DataType)
    requires
        v.admitted(),
        narrow.is_signed(),
        wide.is_signed(),
        narrow.spec_size_of() <= wide.spec_size_of(),
        spec_coerce(v, narrow) is Ok,
    ensures
        spec_coerce(v, wide) is Ok,
        spec_coerce(v, wide)->Ok_0.elems == v.elems,
        spec_coerce(v, wide)->Ok_0.elems == spec_coerce(v, narrow)->Ok_0.elems,
{
    if v.data_type != wide {
        assert(all_admitted(narrow, v.elems));
        assert forall|i: int| 0 <= i < v.elems.len() implies wide.admits(#[trigger] v.elems[i]) by {
            assert(narrow.admits(v.elems[i]));
        }
    }
}

/// Widening is exact: values of a signed integer type convert to any signed
/// integer type at least as wide.
pub proof fn lemma_widening_succeeds(v: Values, wide: DataType)
    requires
        v.admitted(),
        v.data_type.is_signed(),
        wide.is_signed(),
        v.data_type.spec_size_of() <= wide.spec_size_of(),
    ensures
        spec_coerce(v, wide) == Ok::<Values, CoercionError>(
            Values { data_type: wide, elems: v.elems },
        ),
{
    lemma_coercion_monotone(v, v.data_type, wide);
}

/// Whether the signed type `target` admits `x`.
fn signed_fits(target: DataType, x: i32) -> (r: bool)
    requires
        target.is_signed(),
    ensures
        r == target.admits(x as int),
{
    match target {
        DataType::I8 => -0x80 <= x && x < 0x80,
        DataType::I16 => -0x8000 <= x && x < 0x8000,
        _ => true,
    }
}

impl DataVector {
    /// The value at `i` of a vector of signed integers.
    fn signed_at(&self, i: usize) -> (r: i32)
        requires
            self@.data_type.is_signed(),
            i < self@.elems.len(),
        ensures
            r == self@.elems[i as int],
    {
        match self {
            DataVector::I8(v) => v[i] as i32,
            DataVector::I16(v) => v[i] as i32,
            DataVector::I32(v) => v[i],
            _ => 0,
        }
    }

    /// Appends `x` to a vector of signed integers.
    fn push_signed(&mut self, x: i32)
        requires
            old(self)@.data_type.is_signed(),
            old(self)@.data_type.admits(x as int),
        ensures
            final(self)@.data_type == old(self)@.data_type,
            final(self)@.elems == old(self)@.elems.push(x as int),
    {
        match self {
            DataVector::I8(v) => {
                v.push(x as i8);
            },
            DataVector::I16(v) => {
                v.push(x as i16);
            },
            DataVector::I32(v) => {
                v.push(x);
            },
            _ => {},
        }
        assert(self@.elems =~= old(self)@.elems.push(x as int));
    }

    /// Converts the values to the type `target`, or says why it cannot.
    pub fn coerce(&self, target: DataType) -> (r: Result<DataVector, CoercionError>)
        ensures
            match spec_coerce(self@, target) {
                Ok(v) => r is Ok && r.unwrap()@ == v,
                Err(e) => r == Err::<DataVector, CoercionError>(e),
            },
    {
        let source: DataType = self.data_type();
        if source == target {
            return Ok(self.clone());
        }
        let source_signed: bool = source == DataType::I8 || source == DataType::I16 || source
            == DataType::I32;
        let target_signed: bool = target == DataType::I8 || target == DataType::I16 || target
            == DataType::I32;
        if !source_signed || !target_signed {
            return Err(CoercionError::DataTypeMismatch);
        }
        let n: usize = self.len();
        let mut out = DataVector::new(target);
        let mut i: usize = 0;
        assert(out@.elems =~= self@.elems.take(0));
        while i < n
            invariant
                i <= n,
                n == self@.elems.len(),
                self@.data_type.is_signed(),
                target.is_signed(),
                out@.data_type == target,
                out@.elems == self@.elems.take(i as int),
                forall|j: int| 0 <= j < i ==> target.admits(#[trigger] self@.elems[j]),
            decreases n - i,
        {
            let x: i32 = self.signed_at(i);
            if !signed_fits(target, x) {
                return Err(CoercionError::ValueOutOfRange);
            }
            out.push_signed(x);
            assert(out@.elems =~= self@.elems.take(i + 1));
            i += 1;
        }
        assert(self@.elems.take(n as int) =~= self@.elems);
        Ok(out)
    }

    /// Reads text as signed bytes, or signed bytes as text, each byte staying
    /// the same byte. Gives nothing for values of another type.
    pub fn reinterpret_bytes(&self) -> (r: Option<DataVector>)
        ensures
            match spec_reinterpret_bytes(self@) {
                Some(v) => r is Some && r.unwrap()@ == v,
                None => r is None,
            },
    {
        let target: DataType = match self.data_type() {
            DataType::U8 => DataType::I8,
            DataType::I8 => DataType::U8,
            _ => {
                return None;
            },
        };
        let n: usize = self.len();
        let mut out = DataVector::new(target);
        let mut i: usize = 0;
        let ghost want = spec_reinterpret_bytes(self@)->Some_0;
        assert(out@.elems =~= want.elems.take(0));
        while i < n
            invariant
                i <= n,
                n == self@.elems.len(),
                self@.data_type == DataType::U8 || self@.data_type == DataType::I8,
                spec_reinterpret_bytes(self@) == Some(want),
                out@.data_type == want.data_type,
                out@.elems == want.elems.take(i as int),
            decreases n - i,
        {
            let bits: u64 = self.bits_at(i);
            out.push_bits(bits);
            assert(out@.elems =~= want.elems.take(i + 1));
            i += 1;
        }
        assert(want.elems.take(n as int) =~= want.elems);
        Some(out)
    }
}

impl Clone for DataVector {
    fn clone(&self) -> (r: Self)
        ensures
            r@ == self@,
    {
        let n: usize = self.len();
        let r = self.slice(0, n);
        assert(r@.elems =~= self@.elems);
        r
    }
}

} // verus!
