//! The rule that every dimension, variable and attribute name obeys.
use vstd::prelude::*;
use vstd::string::*;
use vstd::utf8::*;

verus! {

/// The longest name, counted in bytes of its UTF-8 encoding.
pub const NC_MAX_NAME_SIZE: usize = 256;

pub open spec fn is_ascii_letter(b: u8) -> bool {
    (0x41 <= b <= 0x5a) || (0x61 <= b <= 0x7a)
}

pub open spec fn is_ascii_digit(b: u8) -> bool {
    0x30 <= b <= 0x39
}

/// A byte that may open a name: an ASCII letter, `_`, or any byte of a
/// multi-byte UTF-8 character.
pub open spec fn is_name_start(b: u8) -> bool {
    is_ascii_letter(b) || b == 0x5f || b >= 0x80
}

/// A byte that may follow the first one: an ASCII letter or digit, one of
/// `_`, `.`, `+`, `-`, `@`, or any byte of a multi-byte UTF-8 character.
pub open spec fn is_name_part(b: u8) -> bool {
    is_ascii_letter(b) || is_ascii_digit(b) || b == 0x5f || b == 0x2e || b == 0x2b || b == 0x2d
        || b == 0x40 || b >= 0x80
}

/// The rule on the bytes of a name, leaving aside whether they are UTF-8.
pub open spec fn valid_name_bytes(bytes: Seq<u8>) -> bool {
    &&& 1 <= bytes.len() <= NC_MAX_NAME_SIZE
    &&& is_name_start(bytes[0])
    &&& forall|i: int| 1 <= i < bytes.len() ==> is_name_part(#[trigger] bytes[i])
}

/// A name is valid when its UTF-8 encoding obeys the rule on bytes.
pub open spec fn valid_name(name: Seq<char>) -> bool {
    valid_name_bytes(encode_utf8(name))
}

fn name_start(b: u8) -> (r: bool)
    ensures
        r == is_name_start(b),
{
    (0x41 <= b && b <= 0x5a) || (0x61 <= b && b <= 0x7a) || b == 0x5f || b >= 0x80
}

fn name_part(b: u8) -> (r: bool)
    ensures
        r == is_name_part(b),
{
    (0x41 <= b && b <= 0x5a) || (0x61 <= b && b <= 0x7a) || (0x30 <= b && b <= 0x39) || b == 0x5f
        || b == 0x2e || b == 0x2b || b == 0x2d || b == 0x40 || b >= 0x80
}

/// Tells whether `bytes` obey the rule on the bytes of a name.
pub fn is_valid_name_bytes(bytes: &[u8]) -> (r: bool)
    ensures
        r == valid_name_bytes(bytes@),
{
    let n: usize = bytes.len();
    if n == 0 || n > NC_MAX_NAME_SIZE {
        return false;
    }
    if !name_start(bytes[0]) {
        return false;
    }
    let mut i: usize = 1;
    while i < n
        invariant
            1 <= i <= n,
            n == bytes@.len(),
            forall|j: int| 1 <= j < i ==> is_name_part(#[trigger] bytes@[j]),
        decreases n - i,
    {
        if !name_part(bytes[i]) {
            return false;
        }
        i += 1;
    }
    true
}

/// Tells whether `name` is a valid name of a dimension, a variable or an
/// attribute.
pub fn is_valid_name(name: &str) -> (r: bool)
    ensures
        r == valid_name(name@),
{
    is_valid_name_bytes(name.as_bytes())
}

/// Two string slices hold the same characters exactly when their UTF-8
/// encodings are equal.
pub proof fn lemma_same_bytes_same_chars(a: Seq<char>, b: Seq<char>)
    ensures
        (encode_utf8(a) == encode_utf8(b)) <==> a == b,
{
    encode_utf8_decode_utf8(a);
    encode_utf8_decode_utf8(b);
}

/// Compares two string slices character by character.
pub fn str_eq(a: &str, b: &str) -> (r: bool)
    ensures
        r == (a@ == b@),
{
    let x = a.as_bytes();
    let y = b.as_bytes();
    proof {
        lemma_same_bytes_same_chars(a@, b@);
    }
    if x.len() != y.len() {
        return false;
    }
    let n: usize = x.len();
    let mut i: usize = 0;
    while i < n
        invariant
            i <= n,
            n == x@.len(),
            n == y@.len(),
            x@ == encode_utf8(a@),
            y@ == encode_utf8(b@),
            (encode_utf8(a@) == encode_utf8(b@)) <==> a@ == b@,
            forall|j: int| 0 <= j < i ==> x@[j] == y@[j],
        decreases n - i,
    {
        if x[i] != y[i] {
            return false;
        }
        i += 1;
    }
    assert(x@ =~= y@);
    true
}

} // verus!
