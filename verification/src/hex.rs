//! Hexadecimal text for digests. Lower case is the canonical rendering; upper
//! case digits are accepted on input and denote the same values.

use vstd::prelude::*;

verus! {

/// The value of a hexadecimal digit, in either case; `None` for any other
/// byte.
pub open spec fn hex_value(c: u8) -> Option<u8> {
    if 0x30 <= c <= 0x39 {
        Some((c - 0x30) as u8)
    } else if 0x61 <= c <= 0x66 {
        Some((c - 0x61 + 10) as u8)
    } else if 0x41 <= c <= 0x46 {
        Some((c - 0x41 + 10) as u8)
    } else {
        None
    }
}

/// The lower-case hexadecimal digit for `v`, which is below sixteen.
pub open spec fn hex_digit(v: u8) -> u8 {
    if v < 10 {
        (0x30 + v) as u8
    } else {
        (0x61 + v - 10) as u8
    }
}

/// Two lower-case digits per byte, high nibble first.
pub open spec fn hex_encode(bytes: Seq<u8>) -> Seq<u8> {
    Seq::new(
        2 * bytes.len(),
        |i: int|
            if i % 2 == 0 {
                hex_digit(bytes[i / 2] / 16)
            } else {
                hex_digit(bytes[i / 2] % 16)
            },
    )
}

/// True for an even number of hexadecimal digits.
pub open spec fn is_hex(text: Seq<u8>) -> bool {
    &&& text.len() % 2 == 0
    &&& forall|i: int| 0 <= i < text.len() ==> hex_value(#[trigger] text[i]) is Some
}

/// The bytes that hexadecimal text denotes, one per pair of digits.
pub open spec fn hex_decode(text: Seq<u8>) -> Seq<u8> {
    Seq::new(
        text.len() / 2,
        |i: int| (hex_value(text[2 * i]).unwrap() * 16 + hex_value(text[2 * i + 1]).unwrap()) as u8,
    )
}

/// Encoded bytes are hexadecimal text, and decoding gives the bytes back.
pub proof fn lemma_hex_round_trip(bytes: Seq<u8>)
    ensures
        hex_encode(bytes).len() == 2 * bytes.len(),
        is_hex(hex_encode(bytes)),
        hex_decode(hex_encode(bytes)) == bytes,
{
    let text = hex_encode(bytes);
    assert forall|i: int| 0 <= i < text.len() implies hex_value(#[trigger] text[i]) is Some by {
        let b = bytes[i / 2];
        assert(b / 16 < 16 && b % 16 < 16);
    }
    assert forall|i: int| 0 <= i < bytes.len() implies hex_decode(text)[i] == bytes[i] by {
        let b = bytes[i];
        assert(text[2 * i] == hex_digit(b / 16));
        assert(text[2 * i + 1] == hex_digit(b % 16));
        assert(hex_value(hex_digit(b / 16)) == Some(b / 16));
        assert(hex_value(hex_digit(b % 16)) == Some(b % 16));
    }
    assert(hex_decode(text) =~= bytes);
}

/// The value of one hexadecimal digit.
pub fn hex_digit_to_num(digit: u8) -> (r: Option<u8>)
    ensures
        r == hex_value(digit),
{
    if 0x30 <= digit && digit <= 0x39 {
        Some(digit - 0x30)
    } else if 0x61 <= digit && digit <= 0x66 {
        Some(digit - 0x61 + 10)
    } else if 0x41 <= digit && digit <= 0x46 {
        Some(digit - 0x41 + 10)
    } else {
        None
    }
}

/// The lower-case digit for a value below sixteen.
pub fn num_to_hex_digit(v: u8) -> (c: u8)
    requires
        v < 16,
    ensures
        c == hex_digit(v),
{
    if v < 10 {
        0x30 + v
    } else {
        0x61 + (v - 10)
    }
}

/// Appends the hexadecimal form of `bytes` to `out`.
pub fn write_hex(out: &mut Vec<u8>, bytes: &[u8])
    ensures
        final(out)@ == old(out)@ + hex_encode(bytes@),
{
    let mut i: usize = 0;
    while i < bytes.len()
        invariant
            i <= bytes@.len(),
            out@ == old(out)@ + hex_encode(bytes@.subrange(0, i as int)),
        decreases bytes@.len() - i,
    {
        let b = bytes[i];
        out.push(num_to_hex_digit(b / 16));
        out.push(num_to_hex_digit(b % 16));
        i += 1;
        proof {
            let before = bytes@.subrange(0, i - 1);
            let now = bytes@.subrange(0, i as int);
            assert(hex_encode(now) =~= hex_encode(before).push(hex_digit(b / 16)).push(
                hex_digit(b % 16),
            )) by {
                assert forall|j: int| 0 <= j < 2 * (i - 1) implies hex_encode(now)[j]
                    == hex_encode(before)[j] by {
                    assert(now[j / 2] == before[j / 2]);
                }
                assert(now[(2 * (i - 1)) / 2] == b);
                assert(now[(2 * (i - 1) + 1) / 2] == b);
            }
        }
    }
    assert(bytes@.subrange(0, i as int) == bytes@);
}

/// Reads hexadecimal text. `None` unless `sha` is an even number of
/// hexadecimal digits.
pub fn sha_to_bytes(sha: &[u8]) -> (r: Option<Vec<u8>>)
    ensures
        r is Some <==> is_hex(sha@),
        r matches Some(bytes) ==> bytes@ == hex_decode(sha@),
{
    if sha.len() % 2 != 0 {
        return None;
    }
    let mut out: Vec<u8> = Vec::new();
    let mut i: usize = 0;
    while i < sha.len()
        invariant
            sha@.len() % 2 == 0,
            i % 2 == 0,
            i <= sha@.len(),
            out@.len() == i / 2,
            forall|j: int| 0 <= j < i ==> hex_value(#[trigger] sha@[j]) is Some,
            forall|j: int| 0 <= j < i / 2 ==> out@[j] == hex_decode(sha@)[j],
        decreases sha@.len() - i,
    {
        let high = match hex_digit_to_num(sha[i]) {
            Some(v) => v,
            None => {
                return None;
            },
        };
        let low = match hex_digit_to_num(sha[i + 1]) {
            Some(v) => v,
            None => {
                return None;
            },
        };
        out.push(high * 16 + low);
        i += 2;
    }
    assert(out@ =~= hex_decode(sha@));
    Some(out)
}

} // verus!
