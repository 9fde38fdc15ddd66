//! Hexadecimal encoding and decoding of byte strings.
//!
//! Hashes and public keys cross the application boundary as 64-character
//! hexadecimal strings; log identifiers embed the hexadecimal form of a
//! stream identifier.

use vstd::prelude::*;

verus! {

/// The lower-case hexadecimal digit for a nibble.
pub open spec fn spec_hex_digit(n: u8) -> u8
    recommends
        n < 16,
{
    if n < 10 {
        (48 + n) as u8
    } else {
        (87 + n) as u8
    }
}

/// Lower-case hexadecimal encoding of a byte string: two digits per byte.
pub open spec fn spec_hex(bytes: Seq<u8>) -> Seq<u8> {
    Seq::new(
        bytes.len() * 2,
        |i: int|
            if i % 2 == 0 {
                spec_hex_digit(bytes[i / 2] / 16)
            } else {
                spec_hex_digit(bytes[i / 2] % 16)
            },
    )
}

/// The nibble denoted by a hexadecimal digit, upper or lower case.
pub open spec fn spec_hex_val(c: u8) -> Option<u8> {
    if 48 <= c <= 57 {
        Some((c - 48) as u8)
    } else if 97 <= c <= 102 {
        Some((c - 87) as u8)
    } else if 65 <= c <= 70 {
        Some((c - 55) as u8)
    } else {
        None
    }
}

/// Every character of `s` is a hexadecimal digit.
pub open spec fn spec_is_hex_seq(s: Seq<u8>) -> bool {
    forall|i: int| 0 <= i < s.len() ==> #[trigger] spec_hex_val(s[i]) is Some
}

/// The byte string denoted by an even-length sequence of hexadecimal digits.
pub open spec fn spec_unhex(s: Seq<u8>) -> Seq<u8>
    recommends
        s.len() % 2 == 0,
        spec_is_hex_seq(s),
{
    Seq::new(
        s.len() / 2,
        |i: int| (spec_hex_val(s[2 * i])->Some_0 * 16 + spec_hex_val(s[2 * i + 1])->Some_0) as u8,
    )
}

/// Decoding inverts encoding: the hexadecimal form of `bytes` is all hex
/// digits, of even length, and denotes `bytes` again.
pub proof fn lemma_hex_round_trip(bytes: Seq<u8>)
    ensures
        spec_hex(bytes).len() == bytes.len() * 2,
        spec_is_hex_seq(spec_hex(bytes)),
        spec_unhex(spec_hex(bytes)) =~= bytes,
{
    let h = spec_hex(bytes);
    assert forall|i: int| 0 <= i < h.len() implies #[trigger] spec_hex_val(h[i]) is Some by {
        assert(bytes[i / 2] / 16 < 16 && bytes[i / 2] % 16 < 16);
    }
    assert forall|i: int| 0 <= i < bytes.len() implies spec_unhex(h)[i] == bytes[i] by {
        assert(h[2 * i] == spec_hex_digit(bytes[i] / 16));
        assert(h[2 * i + 1] == spec_hex_digit(bytes[i] % 16));
    }
}

/// Appends the lower-case hexadecimal digits of `b` to `out`.
pub fn hex_encode_into(out: &mut Vec<u8>, b: &[u8])
    ensures
        final(out)@ =~= old(out)@ + spec_hex(b@),
{
    let ghost base = out@;
    let mut i: usize = 0;
    while i < b.len()
        invariant
            i <= b@.len(),
            out@ =~= base + spec_hex(b@.subrange(0, i as int)),
        decreases b@.len() - i,
    {
        let hi = b[i] / 16;
        let lo = b[i] % 16;
        out.push(if hi < 10 {
            48 + hi
        } else {
            87 + hi
        });
        out.push(if lo < 10 {
            48 + lo
        } else {
            87 + lo
        });
        assert(out@ =~= base + spec_hex(b@.subrange(0, i + 1))) by {
            assert(b@.subrange(0, i + 1)[i as int] == b@[i as int]);
            assert(forall|j: int|
                0 <= j < i ==> b@.subrange(0, i + 1)[j] == #[trigger] b@.subrange(0, i as int)[j]);
        }
        i += 1;
    }
    assert(b@.subrange(0, b@.len() as int) =~= b@);
}

/// Lower-case hexadecimal encoding of a byte string.
pub fn hex_encode(b: &[u8]) -> (r: Vec<u8>)
    ensures
        r@ =~= spec_hex(b@),
{
    let mut out: Vec<u8> = Vec::new();
    hex_encode_into(&mut out, b);
    out
}

/// The nibble denoted by one hexadecimal digit, if any.
fn hex_val(c: u8) -> (r: Option<u8>)
    ensures
        r == spec_hex_val(c),
{
    if 48 <= c && c <= 57 {
        Some(c - 48)
    } else if 97 <= c && c <= 102 {
        Some(c - 87)
    } else if 65 <= c && c <= 70 {
        Some(c - 55)
    } else {
        None
    }
}

/// Decodes a hexadecimal byte string, upper or lower case. Returns `None`
/// exactly when the input has odd length or a non-hexadecimal character.
pub fn hex_decode(b: &[u8]) -> (r: Option<Vec<u8>>)
    ensures
        r is Some <==> (b@.len() % 2 == 0 && spec_is_hex_seq(b@)),
        r is Some ==> r->Some_0@ =~= spec_unhex(b@),
{
    if b.len() % 2 != 0 {
        return None;
    }
    let mut out: Vec<u8> = Vec::new();
    let mut i: usize = 0;
    while i < b.len()
        invariant
            i <= b@.len(),
            i % 2 == 0,
            b@.len() % 2 == 0,
            forall|j: int| 0 <= j < i ==> #[trigger] spec_hex_val(b@[j]) is Some,
            out@.len() == i / 2,
            forall|j: int|
                0 <= j < i / 2 ==> #[trigger] out@[j] == (spec_hex_val(b@[2 * j])->Some_0 * 16
                    + spec_hex_val(b@[2 * j + 1])->Some_0) as u8,
        decreases b@.len() - i,
    {
        let hi = match hex_val(b[i]) {
            Some(v) => v,
            None => {
                return None;
            },
        };
        let lo = match hex_val(b[i + 1]) {
            Some(v) => v,
            None => {
                return None;
            },
        };
        out.push(hi * 16 + lo);
        i += 2;
    }
    proof {
        assert(out@ =~= spec_unhex(b@));
    }
    Some(out)
}

} // verus!
