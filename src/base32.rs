use vstd::prelude::*;

use crate::error::{fulfils, ConvertError};
use crate::padding::{count_trailing_pad, lemma_block_index, trailing_pad, PAD};

verus! {

/// The character of the base32 alphabet (`A-Z2-7`) for a value below 32.
pub open spec fn b32_char(x: u8) -> u8 {
    if x < 26 {
        (0x41 + x) as u8
    } else {
        (0x32 + x - 26) as u8
    }
}

/// `c` belongs to the base32 alphabet.
pub open spec fn is_b32_char(c: u8) -> bool {
    (0x41 <= c <= 0x5a) || (0x32 <= c <= 0x37)
}

/// The value of a base32 character (zero for `=` and for any other character).
pub open spec fn b32_value(c: u8) -> u64 {
    if 0x41 <= c <= 0x5a {
        (c - 0x41) as u64
    } else if 0x32 <= c <= 0x37 {
        (c - 0x32 + 26) as u64
    } else {
        0
    }
}

/// Byte `i` of `b`, or zero past its end.
pub open spec fn b32_byte(b: Seq<u8>, i: int) -> u64 {
    if 0 <= i < b.len() {
        b[i] as u64
    } else {
        0
    }
}

/// The bytes of group `g` (five from `5 * g`, zero past the end) as a 40-bit big-endian number.
pub open spec fn b32_group(b: Seq<u8>, g: int) -> u64 {
    (b32_byte(b, 5 * g) << 32) | (b32_byte(b, 5 * g + 1) << 24) | (b32_byte(b, 5 * g + 2) << 16)
        | (b32_byte(b, 5 * g + 3) << 8) | b32_byte(b, 5 * g + 4)
}

/// Five-bit field `j` (from the top) of a 40-bit number.
pub open spec fn b32_field(v: u64, j: int) -> u8 {
    ((v >> ((35 - 5 * j) as u64)) & 31) as u8
}

/// How many of the eight characters of a group carry data, when `rest` bytes are left
/// from the group's start; the others are `=`.
pub open spec fn b32_data_chars(rest: int) -> int {
    if rest >= 5 {
        8
    } else if rest == 4 {
        7
    } else if rest == 3 {
        5
    } else if rest == 2 {
        4
    } else {
        2
    }
}

/// The length of the base32 text of `n` bytes: eight characters for each started group of five.
pub open spec fn b32_encoded_len(n: int) -> int {
    8 * ((n + 4) / 5)
}

/// The base32 text of `b`, padded with `=` to a whole number of groups.
pub open spec fn b32_encode(b: Seq<u8>) -> Seq<u8> {
    Seq::new(
        b32_encoded_len(b.len() as int) as nat,
        |k: int|
            if k % 8 < b32_data_chars(b.len() - 5 * (k / 8)) {
                b32_char(b32_field(b32_group(b, k / 8), k % 8))
            } else {
                PAD
            },
    )
}

/// What encoding `b` into a buffer of `cap` bytes yields.
pub open spec fn b32_encode_outcome(b: Seq<u8>, cap: int) -> Result<Seq<u8>, ConvertError> {
    if b32_encoded_len(b.len() as int) > cap {
        Err(ConvertError::InvalidOutputLength)
    } else {
        Ok(b32_encode(b))
    }
}

/// The number of `=` that can end a base32 block: those that follow four, three, two or
/// one bytes of data, or none.
pub open spec fn b32_pad_ok(p: int) -> bool {
    p == 0 || p == 1 || p == 3 || p == 4 || p == 6
}

/// How many bytes `p` characters `=` take from the last block.
pub open spec fn b32_pad_bytes(p: int) -> int {
    if p == 0 {
        0
    } else if p == 1 {
        1
    } else if p == 3 {
        2
    } else if p == 4 {
        3
    } else {
        4
    }
}

/// The eight characters of block `g` of `s` as a 40-bit number.
pub open spec fn b32_block(s: Seq<u8>, g: int) -> u64 {
    (b32_value(s[8 * g]) << 35) | (b32_value(s[8 * g + 1]) << 30) | (b32_value(s[8 * g + 2]) << 25)
        | (b32_value(s[8 * g + 3]) << 20) | (b32_value(s[8 * g + 4]) << 15) | (b32_value(
        s[8 * g + 5],
    ) << 10) | (b32_value(s[8 * g + 6]) << 5) | b32_value(s[8 * g + 7])
}

/// The number of bytes that the base32 text `s` stands for.
pub open spec fn b32_decoded_len(s: Seq<u8>) -> int {
    5 * (s.len() / 8) - b32_pad_bytes(trailing_pad(s) as int)
}

/// The bytes that the base32 text `s` stands for.
pub open spec fn b32_decode(s: Seq<u8>) -> Seq<u8> {
    Seq::new(
        b32_decoded_len(s) as nat,
        |i: int| ((b32_block(s, i / 5) >> ((32 - 8 * (i % 5)) as u64)) & 0xff) as u8,
    )
}

/// Every character of `s` before its final `=` run is in the alphabet.
pub open spec fn b32_chars_ok(s: Seq<u8>) -> bool {
    forall|i: int| 0 <= i < s.len() - trailing_pad(s) ==> is_b32_char(#[trigger] s[i])
}

/// What decoding `s` into a buffer of `cap` bytes yields. The buffer must hold the
/// decoded bytes exactly, as the length of the final `=` run gives them.
pub open spec fn b32_decode_outcome(s: Seq<u8>, cap: int) -> Result<Seq<u8>, ConvertError> {
    if s.len() % 8 != 0 {
        Err(ConvertError::InvalidInputLength)
    } else if !b32_pad_ok(trailing_pad(s) as int) {
        Err(ConvertError::InvalidInput)
    } else if b32_decoded_len(s) > cap {
        Err(ConvertError::InvalidOutputLength)
    } else if !b32_chars_ok(s) {
        Err(ConvertError::InvalidInput)
    } else {
        Ok(b32_decode(s))
    }
}

fn b32_char_of(x: u8) -> (r: u8)
    requires
        x < 32,
    ensures
        r == b32_char(x),
{
    if x < 26 {
        0x41 + x
    } else {
        0x32 + (x - 26)
    }
}

fn b32_value_of(c: u8) -> (r: Option<u64>)
    ensures
        match r {
            Some(v) => is_b32_char(c) && v == b32_value(c),
            None => !is_b32_char(c),
        },
{
    if c >= 0x41 && c <= 0x5a {
        Some((c - 0x41) as u64)
    } else if c >= 0x32 && c <= 0x37 {
        Some((c - 0x32 + 26) as u64)
    } else {
        None
    }
}

fn b32_byte_of(input: &[u8], i: usize) -> (r: u64)
    ensures
        r == b32_byte(input@, i as int),
{
    if i < input.len() {
        input[i] as u64
    } else {
        0
    }
}

/// The length of the base32 text of `data_len` bytes, where it fits in a `usize`.
fn b32_calc_encoded(data_len: usize) -> (r: Option<usize>)
    ensures
        match r {
            Some(len) => len == b32_encoded_len(data_len as int),
            None => b32_encoded_len(data_len as int) > usize::MAX,
        },
{
    let groups: usize = data_len / 5 + if data_len % 5 != 0 { 1 } else { 0 };
    if groups > usize::MAX / 8 {
        None
    } else {
        Some(groups * 8)
    }
}

/// Encodes `input` as base32 text, padded with `=`, into the start of `output`.
pub fn b32encode(input: &[u8], output: &mut [u8]) -> (r: Result<usize, ConvertError>)
    ensures
        fulfils(b32_encode_outcome(input@, old(output)@.len() as int), r, old(output)@, final(output)@),
        r is Ok ==> r->Ok_0 == b32_encoded_len(input@.len() as int),
{
    let n = input.len();
    let cap: usize = output.len();
    let req: usize = match b32_calc_encoded(n) {
        Some(len) => len,
        None => return Err(ConvertError::InvalidOutputLength),
    };
    if req > cap {
        return Err(ConvertError::InvalidOutputLength);
    }
    let groups: usize = req / 8;
    let ghost enc = b32_encode(input@);
    assert(req == enc.len());
    let mut g: usize = 0;
    while g < groups
        invariant
            n == input@.len(),
            enc == b32_encode(input@),
            req == 8 * groups,
            req == enc.len(),
            groups == (n + 4) / 5,
            req <= output@.len(),
            g <= groups,
            output@.len() == old(output)@.len(),
            forall|k: int| 0 <= k < 8 * g ==> output@[k] == #[trigger] enc[k],
            forall|k: int| 8 * g <= k < output@.len() ==> output@[k] == old(output)@[k],
        decreases groups - g,
    {
        let at: usize = 5 * g;
        let v: u64 = (b32_byte_of(input, at) << 32) | (b32_byte_of(input, at + 1) << 24) | (
        b32_byte_of(input, at + 2) << 16) | (b32_byte_of(input, at + 3) << 8) | b32_byte_of(
            input,
            at + 4,
        );
        assert(v == b32_group(input@, g as int));
        let rest: usize = n - at;
        let data: usize = if rest >= 5 {
            8
        } else if rest == 4 {
            7
        } else if rest == 3 {
            5
        } else if rest == 2 {
            4
        } else {
            2
        };
        let mut j: usize = 0;
        while j < 8
            invariant
                enc == b32_encode(input@),
                req == enc.len(),
                req == 8 * groups,
                g < groups,
                req <= output@.len(),
                j <= 8,
                v == b32_group(input@, g as int),
                data == b32_data_chars(input@.len() - 5 * g),
                output@.len() == old(output)@.len(),
                forall|k: int| 0 <= k < 8 * g + j ==> output@[k] == #[trigger] enc[k],
                forall|k: int| 8 * g + j <= k < output@.len() ==> output@[k] == old(output)@[k],
            decreases 8 - j,
        {
            proof {
                lemma_block_index(8, g as int, j as int);
            }
            let c = if j < data {
                let sh: u64 = (35 - 5 * j) as u64;
                let f: u64 = (v >> sh) & 31;
                assert(f < 32) by (bit_vector)
                    requires
                        f == (v >> sh) & 31,
                ;
                b32_char_of(f as u8)
            } else {
                PAD
            };
            output[8 * g + j] = c;
            j = j + 1;
        }
        g = g + 1;
    }
    proof {
        assert(final(output)@ =~= enc + old(output)@.skip(req as int));
    }
    Ok(req)
}

/// The value of character `k` of `input`: one of the alphabet before `end`, and an `=`
/// (worth zero) from `end` on.
fn b32_symbol(input: &[u8], k: usize, end: usize) -> (r: Result<u64, ConvertError>)
    requires
        k < input@.len(),
        end <= k ==> input@[k as int] == PAD,
    ensures
        match r {
            Ok(v) => v == b32_value(input@[k as int]) && v < 32 && (k < end ==> is_b32_char(input@[k as int])),
            Err(e) => e == ConvertError::InvalidInput && k < end && !is_b32_char(input@[k as int]),
        },
{
    if k < end {
        match b32_value_of(input[k]) {
            Some(v) => Ok(v),
            None => Err(ConvertError::InvalidInput),
        }
    } else {
        Ok(0)
    }
}

/// Decodes the base32 text `input` into the start of `output`, which must have room for
/// the decoded bytes.
pub fn b32decode(input: &[u8], output: &mut [u8]) -> (r: Result<usize, ConvertError>)
    ensures
        fulfils(b32_decode_outcome(input@, old(output)@.len() as int), r, old(output)@, final(output)@),
{
    if input.len() % 8 != 0 {
        return Err(ConvertError::InvalidInputLength);
    }
    let blocks: usize = input.len() / 8;
    let pad: usize = count_trailing_pad(input);
    let dropped: usize = if pad == 0 {
        0
    } else if pad == 1 {
        1
    } else if pad == 3 {
        2
    } else if pad == 4 {
        3
    } else if pad == 6 {
        4
    } else {
        return Err(ConvertError::InvalidInput);
    };
    proof {
        crate::padding::lemma_trailing_pad_shape(input@);
    }
    let out_len: usize = blocks * 5 - dropped;
    if out_len > output.len() {
        return Err(ConvertError::InvalidOutputLength);
    }
    let end: usize = input.len() - pad;
    let ghost dec = b32_decode(input@);
    assert(dec.len() == out_len);
    let mut g: usize = 0;
    while g < blocks
        invariant
            input@.len() == 8 * blocks,
            pad == trailing_pad(input@),
            b32_pad_ok(pad as int),
            end == input@.len() - pad,
            forall|k: int| end <= k < input@.len() ==> input@[k] == PAD,
            dec == b32_decode(input@),
            out_len == dec.len(),
            out_len <= 5 * blocks,
            out_len <= output@.len(),
            5 * blocks <= usize::MAX,
            g <= blocks,
            output@.len() == old(output)@.len(),
            forall|k: int| 0 <= k < 8 * g && k < end ==> is_b32_char(#[trigger] input@[k]),
            forall|i: int| 0 <= i < 5 * g && i < out_len ==> output@[i] == #[trigger] dec[i],
            forall|i: int| (5 * g <= i || out_len <= i) && 0 <= i < output@.len() ==> output@[i]
                == old(output)@[i],
        decreases blocks - g,
    {
        let at: usize = 8 * g;
        let v0 = b32_symbol(input, at, end)?;
        let v1 = b32_symbol(input, at + 1, end)?;
        let v2 = b32_symbol(input, at + 2, end)?;
        let v3 = b32_symbol(input, at + 3, end)?;
        let v4 = b32_symbol(input, at + 4, end)?;
        let v5 = b32_symbol(input, at + 5, end)?;
        let v6 = b32_symbol(input, at + 6, end)?;
        let v7 = b32_symbol(input, at + 7, end)?;
        assert forall|k: int| 0 <= k < 8 * g + 8 && k < end implies is_b32_char(#[trigger] input@[k]) by {
            if k >= 8 * g {
                assert(k == at || k == at + 1 || k == at + 2 || k == at + 3 || k == at + 4 || k == at
                    + 5 || k == at + 6 || k == at + 7);
            }
        }
        let v: u64 = (v0 << 35) | (v1 << 30) | (v2 << 25) | (v3 << 20) | (v4 << 15) | (v5 << 10) | (v6
            << 5) | v7;
        assert(v == b32_block(input@, g as int));
        let mut m: usize = 0;
        while m < 5
            invariant
                dec == b32_decode(input@),
                out_len == dec.len(),
                out_len <= output@.len(),
                5 * blocks <= usize::MAX,
                g < blocks,
                m <= 5,
                v == b32_block(input@, g as int),
                output@.len() == old(output)@.len(),
                forall|i: int| 0 <= i < 5 * g + m && i < out_len ==> output@[i] == #[trigger] dec[i],
                forall|i: int| (5 * g + m <= i || out_len <= i) && 0 <= i < output@.len() ==> output@[i]
                    == old(output)@[i],
            decreases 5 - m,
        {
            proof {
                lemma_block_index(5, g as int, m as int);
            }
            if 5 * g + m < out_len {
                let sh: u64 = (32 - 8 * m) as u64;
                let byte: u64 = (v >> sh) & 0xff;
                assert(byte < 256) by (bit_vector)
                    requires
                        byte == (v >> sh) & 0xff,
                ;
                output[5 * g + m] = byte as u8;
            }
            m = m + 1;
        }
        g = g + 1;
    }
    proof {
        assert(b32_chars_ok(input@));
        assert(final(output)@ =~= dec + old(output)@.skip(out_len as int));
    }
    Ok(out_len)
}

/// Facts on the 40-bit number of five bytes: its eight five-bit fields put back together
/// give it again, its bytes come back out, and zero bytes at its end leave the fields
/// that lie within them zero.
proof fn lemma_b32_bits(b0: u64, b1: u64, b2: u64, b3: u64, b4: u64)
    requires
        b0 < 256,
        b1 < 256,
        b2 < 256,
        b3 < 256,
        b4 < 256,
    ensures
        ({
            let v = (b0 << 32) | (b1 << 24) | (b2 << 16) | (b3 << 8) | b4;
            &&& ((v >> 35u64) & 31) < 32
            &&& ((v >> 30u64) & 31) < 32
            &&& ((v >> 25u64) & 31) < 32
            &&& ((v >> 20u64) & 31) < 32
            &&& ((v >> 15u64) & 31) < 32
            &&& ((v >> 10u64) & 31) < 32
            &&& ((v >> 5u64) & 31) < 32
            &&& ((v >> 0u64) & 31) < 32
            &&& (((v >> 35u64) & 31) << 35) | (((v >> 30u64) & 31) << 30) | (((v >> 25u64) & 31) << 25)
                | (((v >> 20u64) & 31) << 20) | (((v >> 15u64) & 31) << 15) | (((v >> 10u64) & 31)
                << 10) | (((v >> 5u64) & 31) << 5) | ((v >> 0u64) & 31) == v
            &&& ((v >> 32u64) & 0xff) == b0
            &&& ((v >> 24u64) & 0xff) == b1
            &&& ((v >> 16u64) & 0xff) == b2
            &&& ((v >> 8u64) & 0xff) == b3
            &&& ((v >> 0u64) & 0xff) == b4
            &&& (b4 == 0 ==> (v >> 0u64) & 31 == 0)
            &&& (b3 == 0 && b4 == 0 ==> (v >> 5u64) & 31 == 0 && (v >> 10u64) & 31 == 0)
            &&& (b2 == 0 && b3 == 0 && b4 == 0 ==> (v >> 15u64) & 31 == 0)
            &&& (b1 == 0 && b2 == 0 && b3 == 0 && b4 == 0 ==> (v >> 20u64) & 31 == 0 && (v >> 25u64)
                & 31 == 0)
        }),
{
    let v = (b0 << 32) | (b1 << 24) | (b2 << 16) | (b3 << 8) | b4;
    assert(((v >> 35u64) & 31) < 32 && ((v >> 30u64) & 31) < 32 && ((v >> 25u64) & 31) < 32 && ((v
        >> 20u64) & 31) < 32 && ((v >> 15u64) & 31) < 32 && ((v >> 10u64) & 31) < 32 && ((v >> 5u64)
        & 31) < 32 && ((v >> 0u64) & 31) < 32) by (bit_vector);
    assert((((v >> 35u64) & 31) << 35) | (((v >> 30u64) & 31) << 30) | (((v >> 25u64) & 31) << 25) | (((v
        >> 20u64) & 31) << 20) | (((v >> 15u64) & 31) << 15) | (((v >> 10u64) & 31) << 10) | (((v
        >> 5u64) & 31) << 5) | ((v >> 0u64) & 31) == v) by (bit_vector)
        requires
            v == (b0 << 32) | (b1 << 24) | (b2 << 16) | (b3 << 8) | b4,
            b0 < 256,
            b1 < 256,
            b2 < 256,
            b3 < 256,
            b4 < 256,
    ;
    assert(((v >> 32u64) & 0xff) == b0 && ((v >> 24u64) & 0xff) == b1 && ((v >> 16u64) & 0xff) == b2
        && ((v >> 8u64) & 0xff) == b3 && ((v >> 0u64) & 0xff) == b4) by (bit_vector)
        requires
            v == (b0 << 32) | (b1 << 24) | (b2 << 16) | (b3 << 8) | b4,
            b0 < 256,
            b1 < 256,
            b2 < 256,
            b3 < 256,
            b4 < 256,
    ;
    assert((b4 == 0 ==> (v >> 0u64) & 31 == 0) && (b3 == 0 && b4 == 0 ==> (v >> 5u64) & 31 == 0 && (v
        >> 10u64) & 31 == 0) && (b2 == 0 && b3 == 0 && b4 == 0 ==> (v >> 15u64) & 31 == 0) && (b1 == 0
        && b2 == 0 && b3 == 0 && b4 == 0 ==> (v >> 20u64) & 31 == 0 && (v >> 25u64) & 31 == 0))
        by (bit_vector)
        requires
            v == (b0 << 32) | (b1 << 24) | (b2 << 16) | (b3 << 8) | b4,
            b4 < 256,
    ;
}

/// Each value below 32 is read back from its character, which is never `=`.
proof fn lemma_b32_alphabet()
    ensures
        forall|x: u8|
            x < 32 ==> #[trigger] b32_value(b32_char(x)) == x as u64 && is_b32_char(b32_char(x))
                && b32_char(x) != PAD,
{
}

/// Block `g` of the text of `b` is group `g` of `b`, and character `8 * g + j` of the
/// text is `=` exactly where the group has no data for it.
proof fn lemma_b32_block_of_encode(b: Seq<u8>, g: int)
    requires
        0 <= g < (b.len() + 4) / 5,
    ensures
        b32_block(b32_encode(b), g) == b32_group(b, g),
        forall|j: int|
            0 <= j < 8 ==> (#[trigger] b32_encode(b)[8 * g + j] == PAD <==> j >= b32_data_chars(
                b.len() - 5 * g,
            )),
        forall|j: int|
            0 <= j < 8 && j < b32_data_chars(b.len() - 5 * g) ==> is_b32_char(
                #[trigger] b32_encode(b)[8 * g + j],
            ),
{
    let s = b32_encode(b);
    let n = b.len() as int;
    let v = b32_group(b, g);
    let data = b32_data_chars(n - 5 * g);
    lemma_b32_alphabet();
    lemma_b32_bits(
        b32_byte(b, 5 * g),
        b32_byte(b, 5 * g + 1),
        b32_byte(b, 5 * g + 2),
        b32_byte(b, 5 * g + 3),
        b32_byte(b, 5 * g + 4),
    );
    assert forall|j: int| 0 <= j < 8 implies #[trigger] s[8 * g + j] == (if j < data {
        b32_char(b32_field(v, j))
    } else {
        PAD
    }) by {
        lemma_block_index(8, g, j);
    }
    assert(s[8 * g] == b32_char(b32_field(v, 0)));
    assert(s[8 * g + 1] == b32_char(b32_field(v, 1)));
    assert(s[8 * g + 2] == if data > 2 { b32_char(b32_field(v, 2)) } else { PAD });
    assert(s[8 * g + 3] == if data > 3 { b32_char(b32_field(v, 3)) } else { PAD });
    assert(s[8 * g + 4] == if data > 4 { b32_char(b32_field(v, 4)) } else { PAD });
    assert(s[8 * g + 5] == if data > 5 { b32_char(b32_field(v, 5)) } else { PAD });
    assert(s[8 * g + 6] == if data > 6 { b32_char(b32_field(v, 6)) } else { PAD });
    assert(s[8 * g + 7] == if data > 7 { b32_char(b32_field(v, 7)) } else { PAD });
}

/// The base32 text of `b` ends in six, four, three or one `=` where the length of `b`
/// leaves one, two, three or four bytes over a multiple of five, and in none otherwise.
pub proof fn b32_padding(b: Seq<u8>)
    ensures
        trailing_pad(b32_encode(b)) == (if b.len() % 5 == 1 {
            6nat
        } else if b.len() % 5 == 2 {
            4nat
        } else if b.len() % 5 == 3 {
            3nat
        } else if b.len() % 5 == 4 {
            1nat
        } else {
            0nat
        }),
        b32_chars_ok(b32_encode(b)),
{
    let s = b32_encode(b);
    let n = b.len() as int;
    let groups = (n + 4) / 5;
    if n == 0 {
        crate::padding::lemma_trailing_pad_of(s, 0);
        return;
    }
    assert(n <= 5 * groups <= n + 4);
    let last = groups - 1;
    let data = b32_data_chars(n - 5 * last);
    let p = 8 - data;
    lemma_b32_block_of_encode(b, last);
    assert forall|k: int| 0 <= k < s.len() implies (#[trigger] s[k] == PAD <==> k >= s.len() - p) && (
    k < s.len() - p ==> is_b32_char(s[k])) by {
        vstd::arithmetic::div_mod::lemma_fundamental_div_mod(k, 8);
        let g = k / 8;
        let j = k % 8;
        assert(k == 8 * g + j);
        lemma_b32_block_of_encode(b, g);
    }
    assert(s[s.len() - p - 1] != PAD);
    crate::padding::lemma_trailing_pad_of(s, p as nat);
}

/// Decoding the base32 text of any bytes gives those bytes back, given room for them.
pub proof fn b32_round_trip(b: Seq<u8>, cap: int)
    requires
        cap >= b.len(),
    ensures
        b32_decode_outcome(b32_encode(b), cap) == Ok::<Seq<u8>, ConvertError>(b),
{
    let s = b32_encode(b);
    let n = b.len() as int;
    let groups = (n + 4) / 5;
    b32_padding(b);
    assert(n <= 5 * groups <= n + 4);
    let d = b32_decode(s);
    assert(d.len() == n);
    assert forall|i: int| 0 <= i < n implies #[trigger] d[i] == b[i] by {
        vstd::arithmetic::div_mod::lemma_fundamental_div_mod(i, 5);
        let g = i / 5;
        let m = i % 5;
        lemma_b32_block_of_encode(b, g);
        lemma_b32_bits(
            b32_byte(b, 5 * g),
            b32_byte(b, 5 * g + 1),
            b32_byte(b, 5 * g + 2),
            b32_byte(b, 5 * g + 3),
            b32_byte(b, 5 * g + 4),
        );
        assert(i == 5 * g + m);
    }
    assert(d =~= b);
}

/// Encoding into a buffer shorter than the text fails for want of room, and so does
/// decoding the text of the data into a buffer shorter than the data.
pub proof fn b32_short_output(b: Seq<u8>, cap: int)
    ensures
        cap < b32_encoded_len(b.len() as int) ==> b32_encode_outcome(b, cap) == Err::<
            Seq<u8>,
            ConvertError,
        >(ConvertError::InvalidOutputLength),
        cap < b.len() ==> b32_decode_outcome(b32_encode(b), cap) == Err::<Seq<u8>, ConvertError>(
            ConvertError::InvalidOutputLength,
        ),
{
    if cap < b.len() {
        b32_round_trip(b, b.len() + 4int);
        crate::padding::lemma_trailing_pad_shape(b32_encode(b));
    }
}

/// A text of whole blocks in which one character is replaced by one that is neither in
/// the alphabet nor `=` is refused for its content, given room for all its blocks.
pub proof fn b32_rejects_foreign(s: Seq<u8>, i: int, c: u8, cap: int)
    requires
        s.len() % 8 == 0,
        0 <= i < s.len(),
        !is_b32_char(c),
        c != PAD,
        cap >= 5 * (s.len() / 8),
    ensures
        b32_decode_outcome(s.update(i, c), cap) == Err::<Seq<u8>, ConvertError>(ConvertError::InvalidInput),
{
    let t = s.update(i, c);
    crate::padding::lemma_trailing_pad_shape(t);
    assert(t[i] == c);
}

/// The text of `n` bytes is the shortest whole number of 8-character blocks that holds
/// the 8 characters per 5 bytes of its data.
pub proof fn b32_encoded_len_is_least(n: nat)
    ensures
        b32_encoded_len(n as int) % 8 == 0,
        5 * b32_encoded_len(n as int) >= 8 * n,
        5 * (b32_encoded_len(n as int) - 8) < 8 * n,
{
}

} // verus!
