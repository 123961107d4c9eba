//! Big-endian numbers and the four-byte padding rule.
use vstd::prelude::*;

verus! {

/// 256 to the power `n`.
pub open spec fn pow256(n: nat) -> nat
    decreases n,
{
    if n == 0 {
        1
    } else {
        256 * pow256((n - 1) as nat)
    }
}

/// The `width` bytes that stand for `v`, most significant first.
pub open spec fn be_bytes(v: nat, width: nat) -> Seq<u8>
    decreases width,
{
    if width == 0 {
        Seq::empty()
    } else {
        be_bytes(v / 256, (width - 1) as nat).push((v % 256) as u8)
    }
}

/// The number that `bytes` stand for, most significant first.
pub open spec fn be_value(bytes: Seq<u8>) -> nat
    decreases bytes.len(),
{
    if bytes.len() == 0 {
        0
    } else {
        be_value(bytes.drop_last()) * 256 + bytes.last() as nat
    }
}

/// The natural number whose `width` bytes stand for `v` in two's complement.
pub open spec fn to_unsigned(v: int, width: nat) -> nat {
    if v < 0 {
        (v + pow256(width)) as nat
    } else {
        v as nat
    }
}

/// The signed number that `u` stands for in two's complement on `width` bytes.
pub open spec fn to_signed(u: nat, width: nat) -> int {
    if 2 * u >= pow256(width) {
        u - pow256(width)
    } else {
        u as int
    }
}

/// Whether `v` is in the range of a signed integer of `width` bytes.
pub open spec fn fits_signed(v: int, width: nat) -> bool {
    -(pow256(width) as int) <= 2 * v < pow256(width)
}

/// The number of zero bytes that follow `n` bytes to reach a multiple of four.
pub open spec fn padding(n: nat) -> nat {
    ((4 - n % 4) % 4) as nat
}

/// The least multiple of four that is not under `n`.
pub open spec fn round_up_4(n: nat) -> nat {
    n + padding(n)
}

/// `n` zero bytes.
pub open spec fn zeros(n: nat) -> Seq<u8> {
    Seq::new(n, |i: int| 0u8)
}

pub proof fn lemma_pow256_values()
    ensures
        pow256(0) == 1,
        pow256(1) == 0x100,
        pow256(2) == 0x1_0000,
        pow256(3) == 0x100_0000,
        pow256(4) == 0x1_0000_0000,
        pow256(8) == 0x1_0000_0000_0000_0000,
{
    reveal_with_fuel(pow256, 10);
}

pub proof fn lemma_be_bytes_len(v: nat, width: nat)
    ensures
        be_bytes(v, width).len() == width,
    decreases width,
{
    if width > 0 {
        lemma_be_bytes_len(v / 256, (width - 1) as nat);
    }
}

pub proof fn lemma_be_value_bound(bytes: Seq<u8>)
    ensures
        be_value(bytes) < pow256(bytes.len()),
    decreases bytes.len(),
{
    if bytes.len() > 0 {
        lemma_be_value_bound(bytes.drop_last());
    }
}

/// A number under `256^width` is found again from its bytes.
pub proof fn lemma_be_value_of_bytes(v: nat, width: nat)
    requires
        v < pow256(width),
    ensures
        be_value(be_bytes(v, width)) == v,
    decreases width,
{
    if width > 0 {
        let rest = be_bytes(v / 256, (width - 1) as nat);
        lemma_be_value_of_bytes(v / 256, (width - 1) as nat);
        lemma_be_bytes_len(v / 256, (width - 1) as nat);
        assert(be_bytes(v, width).drop_last() =~= rest);
    }
}

/// Bytes are found again from the number they stand for.
pub proof fn lemma_be_bytes_of_value(bytes: Seq<u8>)
    ensures
        be_bytes(be_value(bytes), bytes.len()) == bytes,
    decreases bytes.len(),
{
    if bytes.len() > 0 {
        lemma_be_bytes_of_value(bytes.drop_last());
        let x = be_value(bytes.drop_last());
        let v = be_value(bytes);
        assert(v == x * 256 + bytes.last() as nat);
        assert(v / 256 == x);
        assert(v % 256 == bytes.last() as nat);
        assert(be_bytes(v, bytes.len()) =~= bytes);
    } else {
        assert(be_bytes(be_value(bytes), bytes.len()) =~= bytes);
    }
}

/// Two's complement loses nothing in the range of the signed type.
pub proof fn lemma_signed_round_trip(v: int, width: nat)
    requires
        fits_signed(v, width),
    ensures
        to_unsigned(v, width) < pow256(width),
        to_signed(to_unsigned(v, width), width) == v,
{
}

/// Every number under `256^width` stands for a signed number of that width.
pub proof fn lemma_unsigned_round_trip(u: nat, width: nat)
    requires
        u < pow256(width),
    ensures
        fits_signed(to_signed(u, width), width),
        to_unsigned(to_signed(u, width), width) == u,
{
}

pub proof fn lemma_round_up_4(n: nat)
    ensures
        round_up_4(n) % 4 == 0,
        n <= round_up_4(n) < n + 4,
        n % 4 == 0 ==> round_up_4(n) == n,
{
}

/// Appends the byte `v`.
pub fn put_u8(out: &mut Vec<u8>, v: u8)
    ensures
        final(out)@ == old(out)@ + be_bytes(v as nat, 1),
{
    out.push(v);
    proof {
        reveal_with_fuel(be_bytes, 2);
        assert(out@ =~= old(out)@ + be_bytes(v as nat, 1));
    }
}

/// Appends the two bytes of `v`, most significant first.
pub fn put_u16(out: &mut Vec<u8>, v: u16)
    ensures
        final(out)@ == old(out)@ + be_bytes(v as nat, 2),
{
    let b1: u8 = (v % 256) as u8;
    let b0: u8 = (v / 256) as u8;
    out.push(b0);
    out.push(b1);
    proof {
        reveal_with_fuel(be_bytes, 3);
        assert(out@ =~= old(out)@ + be_bytes(v as nat, 2));
    }
}

/// Appends the four bytes of `v`, most significant first.
pub fn put_u32(out: &mut Vec<u8>, v: u32)
    ensures
        final(out)@ == old(out)@ + be_bytes(v as nat, 4),
{
    let b3: u8 = (v % 256) as u8;
    let v1: u32 = v / 256;
    let b2: u8 = (v1 % 256) as u8;
    let v2: u32 = v1 / 256;
    let b1: u8 = (v2 % 256) as u8;
    let b0: u8 = (v2 / 256) as u8;
    out.push(b0);
    out.push(b1);
    out.push(b2);
    out.push(b3);
    proof {
        reveal_with_fuel(be_bytes, 5);
        assert(out@ =~= old(out)@ + be_bytes(v as nat, 4));
    }
}

/// Appends the eight bytes of `v`, most significant first.
pub fn put_u64(out: &mut Vec<u8>, v: u64)
    ensures
        final(out)@ == old(out)@ + be_bytes(v as nat, 8),
{
    let b7: u8 = (v % 256) as u8;
    let v1: u64 = v / 256;
    let b6: u8 = (v1 % 256) as u8;
    let v2: u64 = v1 / 256;
    let b5: u8 = (v2 % 256) as u8;
    let v3: u64 = v2 / 256;
    let b4: u8 = (v3 % 256) as u8;
    let v4: u64 = v3 / 256;
    let b3: u8 = (v4 % 256) as u8;
    let v5: u64 = v4 / 256;
    let b2: u8 = (v5 % 256) as u8;
    let v6: u64 = v5 / 256;
    let b1: u8 = (v6 % 256) as u8;
    let b0: u8 = (v6 / 256) as u8;
    out.push(b0);
    out.push(b1);
    out.push(b2);
    out.push(b3);
    out.push(b4);
    out.push(b5);
    out.push(b6);
    out.push(b7);
    proof {
        reveal_with_fuel(be_bytes, 9);
        assert(out@ =~= old(out)@ + be_bytes(v as nat, 8));
    }
}

/// Appends `n` zero bytes.
pub fn put_zeros(out: &mut Vec<u8>, n: usize)
    ensures
        final(out)@ == old(out)@ + zeros(n as nat),
{
    let mut i: usize = 0;
    while i < n
        invariant
            i <= n,
            out@ == old(out)@ + zeros(i as nat),
        decreases n - i,
    {
        out.push(0u8);
        i += 1;
        assert(out@ =~= old(out)@ + zeros(i as nat));
    }
}

/// The number of zero bytes that follow `n` bytes to reach a multiple of four.
pub fn padding_of(n: usize) -> (r: usize)
    ensures
        r == padding(n as nat),
        r < 4,
{
    (4 - n % 4) % 4
}

/// The byte at `pos`.
pub(crate) fn get_u8(bytes: &[u8], pos: usize) -> (r: u8)
    requires
        pos + 1 <= bytes@.len(),
    ensures
        r == be_value(bytes@.subrange(pos as int, pos + 1)),
{
    proof {
        reveal_with_fuel(be_value, 2);
    }
    bytes[pos]
}

/// The number that the two bytes from `pos` on stand for.
pub(crate) fn get_u16(bytes: &[u8], pos: usize) -> (r: u16)
    requires
        pos + 2 <= bytes@.len(),
    ensures
        r == be_value(bytes@.subrange(pos as int, pos + 2)),
{
    proof {
        reveal_with_fuel(be_value, 3);
    }
    let b0: u16 = bytes[pos] as u16;
    let b1: u16 = bytes[pos + 1] as u16;
    b0 * 256 + b1
}

/// The number that the four bytes from `pos` on stand for.
pub(crate) fn get_u32(bytes: &[u8], pos: usize) -> (r: u32)
    requires
        pos + 4 <= bytes@.len(),
    ensures
        r == be_value(bytes@.subrange(pos as int, pos + 4)),
{
    proof {
        reveal_with_fuel(be_value, 5);
    }
    let b0: u32 = bytes[pos] as u32;
    let b1: u32 = bytes[pos + 1] as u32;
    let b2: u32 = bytes[pos + 2] as u32;
    let b3: u32 = bytes[pos + 3] as u32;
    ((b0 * 256 + b1) * 256 + b2) * 256 + b3
}

/// The number that the eight bytes from `pos` on stand for.
pub(crate) fn get_u64(bytes: &[u8], pos: usize) -> (r: u64)
    requires
        pos + 8 <= bytes@.len(),
    ensures
        r == be_value(bytes@.subrange(pos as int, pos + 8)),
{
    let n: usize = bytes.len();
    let hi: u64 = get_u32(bytes, pos) as u64;
    let lo: u64 = get_u32(bytes, pos + 4) as u64;
    proof {
        let s = bytes@.subrange(pos as int, pos + 8);
        let a = bytes@.subrange(pos as int, pos + 4);
        let b = bytes@.subrange(pos + 4, pos + 8);
        assert(s =~= a + b);
        lemma_be_value_concat(a, b);
        lemma_pow256_values();
    }
    hi * 0x1_0000_0000 + lo
}

/// The number that two runs of bytes stand for, one after the other.
pub proof fn lemma_be_value_concat(a: Seq<u8>, b: Seq<u8>)
    ensures
        be_value(a + b) == be_value(a) * pow256(b.len()) + be_value(b),
    decreases b.len(),
{
    if b.len() == 0 {
        assert(a + b =~= a);
        assert(pow256(0) == 1);
        assert(be_value(b) == 0);
        assert(be_value(a) * 1 == be_value(a));
    } else {
        lemma_be_value_concat(a, b.drop_last());
        assert((a + b).drop_last() =~= a + b.drop_last());
        let p = pow256((b.len() - 1) as nat);
        let x = be_value(a);
        let y = be_value(b.drop_last());
        assert((a + b).last() == b.last());
        assert((a + b).len() > 0);
        assert(be_value(a + b) == be_value((a + b).drop_last()) * 256 + b.last() as nat);
        assert(be_value(b) == y * 256 + b.last() as nat);
        assert(pow256(b.len()) == 256 * p);
        assert(x * pow256(b.len()) == x * (256 * p));
        assert((x * p + y) * 256 == x * (256 * p) + y * 256) by (nonlinear_arith);
    }
}

/// The byte that stands for `x` in two's complement.
pub fn i8_bits(x: i8) -> (r: u8)
    ensures
        r == to_unsigned(x as int, 1),
{
    proof {
        lemma_pow256_values();
    }
    if x >= 0 {
        x as u8
    } else {
        ((x + 127 + 1) as u8) + 128
    }
}

/// The signed byte that `u` stands for in two's complement.
pub fn bits_i8(u: u8) -> (r: i8)
    ensures
        r == to_signed(u as nat, 1),
{
    proof {
        lemma_pow256_values();
    }
    if u < 128 {
        u as i8
    } else {
        ((u - 128) as i8) - 127 - 1
    }
}

/// The 16 bits that stand for `x` in two's complement.
pub fn i16_bits(x: i16) -> (r: u16)
    ensures
        r == to_unsigned(x as int, 2),
{
    proof {
        lemma_pow256_values();
    }
    if x >= 0 {
        x as u16
    } else {
        ((x + 0x7fff + 1) as u16) + 0x8000
    }
}

/// The signed number that the 16 bits `u` stand for in two's complement.
pub fn bits_i16(u: u16) -> (r: i16)
    ensures
        r == to_signed(u as nat, 2),
{
    proof {
        lemma_pow256_values();
    }
    if u < 0x8000 {
        u as i16
    } else {
        ((u - 0x8000) as i16) - 0x7fff - 1
    }
}

/// The 32 bits that stand for `x` in two's complement.
pub fn i32_bits(x: i32) -> (r: u32)
    ensures
        r == to_unsigned(x as int, 4),
{
    proof {
        lemma_pow256_values();
    }
    if x >= 0 {
        x as u32
    } else {
        ((x + 0x7fff_ffff + 1) as u32) + 0x8000_0000
    }
}

/// The signed number that the 32 bits `u` stand for in two's complement.
pub fn bits_i32(u: u32) -> (r: i32)
    ensures
        r == to_signed(u as nat, 4),
{
    proof {
        lemma_pow256_values();
    }
    if u < 0x8000_0000 {
        u as i32
    } else {
        ((u - 0x8000_0000) as i32) - 0x7fff_ffff - 1
    }
}

} // verus!
