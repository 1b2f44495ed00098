use vstd::prelude::*;

use crate::error::{fulfils, ConvertError};

verus! {

/// The lowercase hex digit of a value below 16.
pub open spec fn hex_digit(x: int) -> u8 {
    if x < 10 {
        (0x30 + x) as u8
    } else {
        (0x61 + x - 10) as u8
    }
}

/// `c` is a hex digit, in either case.
pub open spec fn is_hex_digit(c: u8) -> bool {
    (0x30 <= c <= 0x39) || (0x61 <= c <= 0x66) || (0x41 <= c <= 0x46)
}

/// The value of a hex digit (zero for any other character).
pub open spec fn hex_value(c: u8) -> int {
    if 0x30 <= c <= 0x39 {
        c - 0x30
    } else if 0x61 <= c <= 0x66 {
        c - 0x61 + 10
    } else if 0x41 <= c <= 0x46 {
        c - 0x41 + 10
    } else {
        0
    }
}

/// The hex text of `b`: for each byte its high digit, then its low digit.
pub open spec fn hex_encode(b: Seq<u8>) -> Seq<u8> {
    Seq::new(
        2 * b.len(),
        |k: int|
            if k % 2 == 0 {
                hex_digit(b[k / 2] as int / 16)
            } else {
                hex_digit(b[k / 2] as int % 16)
            },
    )
}

/// The bytes that the pairs of hex digits of `s` stand for.
pub open spec fn hex_decode(s: Seq<u8>) -> Seq<u8> {
    Seq::new(s.len() / 2, |i: int| (16 * hex_value(s[2 * i]) + hex_value(s[2 * i + 1])) as u8)
}

/// What encoding `b` into a buffer of `cap` bytes yields.
pub open spec fn hex_encode_outcome(b: Seq<u8>, cap: int) -> Result<Seq<u8>, ConvertError> {
    if 2 * b.len() > cap {
        Err(ConvertError::InvalidOutputLength)
    } else {
        Ok(hex_encode(b))
    }
}

/// What decoding `s` into a buffer of `cap` bytes yields.
pub open spec fn hex_decode_outcome(s: Seq<u8>, cap: int) -> Result<Seq<u8>, ConvertError> {
    if s.len() % 2 != 0 {
        Err(ConvertError::InvalidInputLength)
    } else if s.len() / 2 > cap {
        Err(ConvertError::InvalidOutputLength)
    } else if !(forall|i: int| 0 <= i < s.len() ==> is_hex_digit(#[trigger] s[i])) {
        Err(ConvertError::InvalidInput)
    } else {
        Ok(hex_decode(s))
    }
}

fn hex_digit_of(x: u8) -> (r: u8)
    requires
        x < 16,
    ensures
        r == hex_digit(x as int),
{
    if x < 10 {
        0x30 + x
    } else {
        0x61 + (x - 10)
    }
}

fn hex_value_of(c: u8) -> (r: Option<u8>)
    ensures
        match r {
            Some(v) => is_hex_digit(c) && v == hex_value(c) && v < 16,
            None => !is_hex_digit(c),
        },
{
    if c >= 0x61 && c <= 0x66 {
        Some(c - 0x61 + 10)
    } else if c >= 0x41 && c <= 0x46 {
        Some(c - 0x41 + 10)
    } else if c >= 0x30 && c <= 0x39 {
        Some(c - 0x30)
    } else {
        None
    }
}

/// Decodes the hex text `input` into the start of `output`, accepting digits of either case.
pub fn hex2bin(input: &[u8], output: &mut [u8]) -> (r: Result<usize, ConvertError>)
    ensures
        fulfils(hex_decode_outcome(input@, old(output)@.len() as int), r, old(output)@, final(output)@),
{
    if input.len() % 2 != 0 {
        return Err(ConvertError::InvalidInputLength);
    }
    let n: usize = input.len() / 2;
    if n > output.len() {
        return Err(ConvertError::InvalidOutputLength);
    }
    let mut i: usize = 0;
    while i < n
        invariant
            input@.len() == 2 * n,
            2 * n <= usize::MAX,
            n <= output@.len(),
            i <= n,
            output@.len() == old(output)@.len(),
            forall|k: int| 0 <= k < 2 * i ==> is_hex_digit(#[trigger] input@[k]),
            forall|k: int| 0 <= k < i ==> output@[k] == #[trigger] hex_decode(input@)[k],
            forall|k: int| i <= k < output@.len() ==> output@[k] == old(output)@[k],
        decreases n - i,
    {
        let hi = match hex_value_of(input[2 * i]) {
            Some(v) => v,
            None => return Err(ConvertError::InvalidInput),
        };
        let lo = match hex_value_of(input[2 * i + 1]) {
            Some(v) => v,
            None => return Err(ConvertError::InvalidInput),
        };
        output[i] = hi * 16 + lo;
        i = i + 1;
    }
    proof {
        assert(final(output)@ =~= hex_decode(input@) + old(output)@.skip(n as int));
    }
    Ok(n)
}

/// Encodes `input` as lowercase hex text into the start of `output`.
pub fn bin2hex(input: &[u8], output: &mut [u8]) -> (r: Result<usize, ConvertError>)
    ensures
        fulfils(hex_encode_outcome(input@, old(output)@.len() as int), r, old(output)@, final(output)@),
        // the text is twice as long as the data
        r is Ok ==> r->Ok_0 == 2 * input@.len(),
{
    if input.len() > output.len() / 2 {
        return Err(ConvertError::InvalidOutputLength);
    }
    let n: usize = input.len() * 2;
    let mut i: usize = 0;
    while i < input.len()
        invariant
            n == 2 * input@.len(),
            n <= output@.len(),
            i <= input@.len(),
            output@.len() == old(output)@.len(),
            forall|k: int| 0 <= k < 2 * i ==> output@[k] == #[trigger] hex_encode(input@)[k],
            forall|k: int| 2 * i <= k < output@.len() ==> output@[k] == old(output)@[k],
        decreases input@.len() - i,
    {
        let byte = input[i];
        output[2 * i] = hex_digit_of(byte / 16);
        output[2 * i + 1] = hex_digit_of(byte % 16);
        proof {
            assert((2 * i as int) / 2 == i && (2 * i as int) % 2 == 0);
            assert((2 * i as int + 1) / 2 == i && (2 * i as int + 1) % 2 == 1);
        }
        i = i + 1;
    }
    proof {
        assert(final(output)@ =~= hex_encode(input@) + old(output)@.skip(n as int));
    }
    Ok(n)
}

/// Decoding the hex text of any bytes gives those bytes back, given room for them.
pub proof fn hex_round_trip(b: Seq<u8>, cap: int)
    requires
        cap >= b.len(),
    ensures
        hex_decode_outcome(hex_encode(b), cap) == Ok::<Seq<u8>, ConvertError>(b),
{
    let s = hex_encode(b);
    assert forall|k: int| 0 <= k < s.len() implies is_hex_digit(#[trigger] s[k]) by {
        vstd::arithmetic::div_mod::lemma_fundamental_div_mod(k, 2);
    }
    let d = hex_decode(s);
    assert forall|i: int| 0 <= i < b.len() implies #[trigger] d[i] == b[i] by {
        crate::padding::lemma_block_index(2, i, 0);
        crate::padding::lemma_block_index(2, i, 1);
    }
    assert(d =~= b);
}

/// Encoding into a buffer shorter than twice the data fails for want of room, and so does
/// decoding the text of the data into a buffer shorter than the data.
pub proof fn hex_short_output(b: Seq<u8>, cap: int)
    ensures
        cap < 2 * b.len() ==> hex_encode_outcome(b, cap) == Err::<Seq<u8>, ConvertError>(
            ConvertError::InvalidOutputLength,
        ),
        cap < b.len() ==> hex_decode_outcome(hex_encode(b), cap) == Err::<Seq<u8>, ConvertError>(
            ConvertError::InvalidOutputLength,
        ),
{
}

/// A text of even length in which one character is replaced by one that is no hex digit
/// is refused for its content, given room for its bytes.
pub proof fn hex_rejects_foreign(s: Seq<u8>, i: int, c: u8, cap: int)
    requires
        s.len() % 2 == 0,
        0 <= i < s.len(),
        !is_hex_digit(c),
        cap >= s.len() / 2,
    ensures
        hex_decode_outcome(s.update(i, c), cap) == Err::<Seq<u8>, ConvertError>(ConvertError::InvalidInput),
{
    assert(s.update(i, c)[i] == c);
}

} // verus!
