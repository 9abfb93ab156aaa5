//! Lowercase hexadecimal spelling of bytes, as the `hex` crate writes it.

use vstd::prelude::*;
use crate::decimal::digit_char;

verus! {

/// A lowercase hex digit.
pub open spec fn hex_digit(n: nat) -> char {
    if n < 10 {
        digit_char(n)
    } else if n == 10 {
        'a'
    } else if n == 11 {
        'b'
    } else if n == 12 {
        'c'
    } else if n == 13 {
        'd'
    } else if n == 14 {
        'e'
    } else {
        'f'
    }
}

/// Bytes as lowercase hex, two digits per byte, high nibble first.
pub open spec fn hex_lower(b: Seq<u8>) -> Seq<char>
    decreases b.len(),
{
    if b.len() == 0 {
        Seq::empty()
    } else {
        hex_lower(b.drop_last()) + seq![hex_digit((b.last() / 16) as nat), hex_digit((b.last() % 16) as nat)]
    }
}

/// Encodes bytes with `hex::encode`, which writes each byte as two
/// lowercase hex digits.
#[verifier::external_body]
pub fn hex_encode(data: &[u8]) -> (r: String)
    ensures
        r@ == hex_lower(data@),
{
    ::hex::encode(data)
}

/// Two characters equal ignoring ASCII case.
pub open spec fn same_ignoring_ascii_case(x: char, y: char) -> bool {
    x == y || ('A' <= x && x <= 'Z' && (x as u32) + 32 == (y as u32)) || ('A' <= y && y <= 'Z' && (y as u32)
        + 32 == (x as u32))
}

/// `str::eq_ignore_ascii_case`.
pub open spec fn eq_ignore_ascii_case(a: Seq<char>, b: Seq<char>) -> bool {
    a.len() == b.len() && forall|i: int| 0 <= i < a.len() ==> same_ignoring_ascii_case(#[trigger] a[i], b[i])
}

/// Whether two texts are equal ignoring ASCII case.
pub fn eq_ignore_ascii_case_exec(a: &[char], b: &[char]) -> (r: bool)
    ensures
        r == eq_ignore_ascii_case(a@, b@),
{
    if a.len() != b.len() {
        return false;
    }
    let mut i: usize = 0;
    while i < a.len()
        invariant
            i <= a.len(),
            a.len() == b.len(),
            forall|j: int| 0 <= j < i ==> same_ignoring_ascii_case(#[trigger] a@[j], b@[j]),
        decreases a.len() - i,
    {
        let x = a[i];
        let y = b[i];
        let same = x == y || ('A' <= x && x <= 'Z' && (x as u32) + 32 == (y as u32)) || ('A' <= y && y <= 'Z'
            && (y as u32) + 32 == (x as u32));
        if !same {
            return false;
        }
        i += 1;
    }
    true
}

} // verus!
