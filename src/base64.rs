use vstd::prelude::*;

use crate::error::{fulfils, ConvertError};
use crate::padding::{count_trailing_pad, lemma_block_index, trailing_pad, PAD};

verus! {

/// The character of the standard base64 alphabet (`A-Za-z0-9+/`) for a value below 64.
pub open spec fn b64_char(x: u8) -> u8 {
    if x < 26 {
        (0x41 + x) as u8
    } else if x < 52 {
        (0x61 + x - 26) as u8
    } else if x < 62 {
        (0x30 + x - 52) as u8
    } else if x == 62 {
        0x2b
    } else {
        0x2f
    }
}

/// `c` belongs to the base64 alphabet.
pub open spec fn is_b64_char(c: u8) -> bool {
    (0x41 <= c <= 0x5a) || (0x61 <= c <= 0x7a) || (0x30 <= c <= 0x39) || c == 0x2b || c == 0x2f
}

/// The value of a base64 character (zero for `=` and for any other character).
pub open spec fn b64_value(c: u8) -> u32 {
    if 0x41 <= c <= 0x5a {
        (c - 0x41) as u32
    } else if 0x61 <= c <= 0x7a {
        (c - 0x61 + 26) as u32
    } else if 0x30 <= c <= 0x39 {
        (c - 0x30 + 52) as u32
    } else if c == 0x2b {
        62
    } else if c == 0x2f {
        63
    } else {
        0
    }
}

/// Byte `i` of `b`, or zero past its end.
pub open spec fn b64_byte(b: Seq<u8>, i: int) -> u32 {
    if 0 <= i < b.len() {
        b[i] as u32
    } else {
        0
    }
}

/// The bytes of group `g` (three from `3 * g`, zero past the end) as a 24-bit big-endian number.
pub open spec fn b64_group(b: Seq<u8>, g: int) -> u32 {
    (b64_byte(b, 3 * g) << 16) | (b64_byte(b, 3 * g + 1) << 8) | b64_byte(b, 3 * g + 2)
}

/// Six-bit field `j` (from the top) of a 24-bit number.
pub open spec fn b64_field(v: u32, j: int) -> u8 {
    ((v >> ((18 - 6 * j) as u32)) & 63) as u8
}

/// How many of the four characters of a group carry data, when `rest` bytes are left
/// from the group's start; the others are `=`.
pub open spec fn b64_data_chars(rest: int) -> int {
    if rest >= 3 {
        4
    } else if rest == 2 {
        3
    } else {
        2
    }
}

/// The length of the base64 text of `n` bytes: four characters for each started group of three.
pub open spec fn b64_encoded_len(n: int) -> int {
    4 * ((n + 2) / 3)
}

/// The base64 text of `b`, padded with `=` to a whole number of groups.
pub open spec fn b64_encode(b: Seq<u8>) -> Seq<u8> {
    Seq::new(
        b64_encoded_len(b.len() as int) as nat,
        |k: int|
            if k % 4 < b64_data_chars(b.len() - 3 * (k / 4)) {
                b64_char(b64_field(b64_group(b, k / 4), k % 4))
            } else {
                PAD
            },
    )
}

/// What encoding `b` into a buffer of `cap` bytes yields.
pub open spec fn b64_encode_outcome(b: Seq<u8>, cap: int) -> Result<Seq<u8>, ConvertError> {
    if b64_encoded_len(b.len() as int) > cap {
        Err(ConvertError::InvalidOutputLength)
    } else {
        Ok(b64_encode(b))
    }
}

/// The four characters of block `g` of `s` as a 24-bit number.
pub open spec fn b64_block(s: Seq<u8>, g: int) -> u32 {
    (b64_value(s[4 * g]) << 18) | (b64_value(s[4 * g + 1]) << 12) | (b64_value(s[4 * g + 2]) << 6)
        | b64_value(s[4 * g + 3])
}

/// The number of bytes that the base64 text `s` stands for.
pub open spec fn b64_decoded_len(s: Seq<u8>) -> int {
    3 * (s.len() / 4) - trailing_pad(s)
}

/// The bytes that the base64 text `s` stands for.
pub open spec fn b64_decode(s: Seq<u8>) -> Seq<u8> {
    Seq::new(
        b64_decoded_len(s) as nat,
        |i: int| ((b64_block(s, i / 3) >> ((16 - 8 * (i % 3)) as u32)) & 0xff) as u8,
    )
}

/// Every character of `s` before its final `=` run is in the alphabet.
pub open spec fn b64_chars_ok(s: Seq<u8>) -> bool {
    forall|i: int| 0 <= i < s.len() - trailing_pad(s) ==> is_b64_char(#[trigger] s[i])
}

/// What decoding `s` into a buffer of `cap` bytes yields. The buffer must hold three
/// bytes for each block of four characters, whatever the padding.
pub open spec fn b64_decode_outcome(s: Seq<u8>, cap: int) -> Result<Seq<u8>, ConvertError> {
    if s.len() % 4 != 0 {
        Err(ConvertError::InvalidInputLength)
    } else if 3 * (s.len() / 4) > cap {
        Err(ConvertError::InvalidOutputLength)
    } else if trailing_pad(s) > 2 || !b64_chars_ok(s) {
        Err(ConvertError::InvalidInput)
    } else {
        Ok(b64_decode(s))
    }
}

fn b64_char_of(x: u8) -> (r: u8)
    requires
        x < 64,
    ensures
        r == b64_char(x),
{
    if x < 26 {
        0x41 + x
    } else if x < 52 {
        0x61 + (x - 26)
    } else if x < 62 {
        0x30 + (x - 52)
    } else if x == 62 {
        0x2b
    } else {
        0x2f
    }
}

fn b64_value_of(c: u8) -> (r: Option<u32>)
    ensures
        match r {
            Some(v) => is_b64_char(c) && v == b64_value(c),
            None => !is_b64_char(c),
        },
{
    if c >= 0x41 && c <= 0x5a {
        Some((c - 0x41) as u32)
    } else if c >= 0x61 && c <= 0x7a {
        Some((c - 0x61 + 26) as u32)
    } else if c >= 0x30 && c <= 0x39 {
        Some((c - 0x30 + 52) as u32)
    } else if c == 0x2b {
        Some(62)
    } else if c == 0x2f {
        Some(63)
    } else {
        None
    }
}

fn b64_byte_of(input: &[u8], i: usize) -> (r: u32)
    ensures
        r == b64_byte(input@, i as int),
{
    if i < input.len() {
        input[i] as u32
    } else {
        0
    }
}

/// Encodes `input` as base64 text, padded with `=`, into the start of `output`.
pub fn b64encode(input: &[u8], output: &mut [u8]) -> (r: Result<usize, ConvertError>)
    ensures
        fulfils(b64_encode_outcome(input@, old(output)@.len() as int), r, old(output)@, final(output)@),
        r is Ok ==> r->Ok_0 == b64_encoded_len(input@.len() as int),
{
    let n = input.len();
    let groups: usize = n / 3 + if n % 3 != 0 { 1 } else { 0 };
    if groups > output.len() / 4 {
        return Err(ConvertError::InvalidOutputLength);
    }
    let req: usize = groups * 4;
    let ghost enc = b64_encode(input@);
    assert(req == enc.len());
    let mut g: usize = 0;
    while g < groups
        invariant
            n == input@.len(),
            enc == b64_encode(input@),
            req == 4 * groups,
            req == enc.len(),
            req <= output@.len(),
            g <= groups,
            output@.len() == old(output)@.len(),
            forall|k: int| 0 <= k < 4 * g ==> output@[k] == #[trigger] enc[k],
            forall|k: int| 4 * g <= k < output@.len() ==> output@[k] == old(output)@[k],
        decreases groups - g,
    {
        let at: usize = 3 * g;
        let v: u32 = (b64_byte_of(input, at) << 16) | (b64_byte_of(input, at + 1) << 8) | b64_byte_of(input, at + 2);
        assert(v == b64_group(input@, g as int));
        let rest: usize = n - at;
        let data: usize = if rest >= 3 { 4 } else if rest == 2 { 3 } else { 2 };
        let mut j: usize = 0;
        while j < 4
            invariant
                enc == b64_encode(input@),
                req == enc.len(),
                req == 4 * groups,
                g < groups,
                req <= output@.len(),
                j <= 4,
                v == b64_group(input@, g as int),
                data == b64_data_chars(input@.len() - 3 * g),
                output@.len() == old(output)@.len(),
                forall|k: int| 0 <= k < 4 * g + j ==> output@[k] == #[trigger] enc[k],
                forall|k: int| 4 * g + j <= k < output@.len() ==> output@[k] == old(output)@[k],
            decreases 4 - j,
        {
            proof {
                lemma_block_index(4, g as int, j as int);
            }
            let c = if j < data {
                let sh: u32 = (18 - 6 * j) as u32;
                let f: u32 = (v >> sh) & 63;
                assert(f < 64) by (bit_vector)
                    requires
                        f == (v >> sh) & 63,
                ;
                b64_char_of(f as u8)
            } else {
                PAD
            };
            output[4 * g + j] = c;
            j = j + 1;
        }
        g = g + 1;
    }
    proof {
        assert(final(output)@ =~= enc + old(output)@.skip(req as int));
    }
    Ok(req)
}

/// The value of character `k` of `input`: one of the alphabet before `end`, and an `=`
/// (worth zero) from `end` on.
fn b64_symbol(input: &[u8], k: usize, end: usize) -> (r: Result<u32, ConvertError>)
    requires
        k < input@.len(),
        end <= k ==> input@[k as int] == PAD,
    ensures
        match r {
            Ok(v) => v == b64_value(input@[k as int]) && v < 64 && (k < end ==> is_b64_char(input@[k as int])),
            Err(e) => e == ConvertError::InvalidInput && k < end && !is_b64_char(input@[k as int]),
        },
{
    if k < end {
        match b64_value_of(input[k]) {
            Some(v) => Ok(v),
            None => Err(ConvertError::InvalidInput),
        }
    } else {
        Ok(0)
    }
}

/// Decodes the base64 text `input` into the start of `output`. The output must have room
/// for three bytes per block of four characters, though padding makes the result shorter.
pub fn b64decode(input: &[u8], output: &mut [u8]) -> (r: Result<usize, ConvertError>)
    ensures
        fulfils(b64_decode_outcome(input@, old(output)@.len() as int), r, old(output)@, final(output)@),
{
    if input.len() % 4 != 0 {
        return Err(ConvertError::InvalidInputLength);
    }
    let blocks: usize = input.len() / 4;
    if blocks > output.len() / 3 {
        return Err(ConvertError::InvalidOutputLength);
    }
    let pad: usize = count_trailing_pad(input);
    if pad > 2 {
        return Err(ConvertError::InvalidInput);
    }
    proof {
        crate::padding::lemma_trailing_pad_shape(input@);
    }
    let out_len: usize = blocks * 3 - pad;
    let end: usize = input.len() - pad;
    let ghost dec = b64_decode(input@);
    assert(dec.len() == out_len);
    let mut g: usize = 0;
    while g < blocks
        invariant
            input@.len() == 4 * blocks,
            pad == trailing_pad(input@),
            pad <= 2,
            end == input@.len() - pad,
            forall|k: int| end <= k < input@.len() ==> input@[k] == PAD,
            dec == b64_decode(input@),
            out_len == dec.len(),
            out_len + pad == 3 * blocks,
            3 * blocks <= output@.len(),
            output@.len() <= usize::MAX,
            g <= blocks,
            output@.len() == old(output)@.len(),
            forall|k: int| 0 <= k < 4 * g && k < end ==> is_b64_char(#[trigger] input@[k]),
            forall|i: int| 0 <= i < 3 * g && i < out_len ==> output@[i] == #[trigger] dec[i],
            forall|i: int| (3 * g <= i || out_len <= i) && 0 <= i < output@.len() ==> output@[i]
                == old(output)@[i],
        decreases blocks - g,
    {
        let at: usize = 4 * g;
        let v0 = b64_symbol(input, at, end)?;
        let v1 = b64_symbol(input, at + 1, end)?;
        let v2 = b64_symbol(input, at + 2, end)?;
        let v3 = b64_symbol(input, at + 3, end)?;
        assert forall|k: int| 0 <= k < 4 * g + 4 && k < end implies is_b64_char(#[trigger] input@[k]) by {
            if k >= 4 * g {
                assert(k == at || k == at + 1 || k == at + 2 || k == at + 3);
            }
        }
        let v: u32 = (v0 << 18) | (v1 << 12) | (v2 << 6) | v3;
        assert(v == b64_block(input@, g as int));
        let mut m: usize = 0;
        while m < 3
            invariant
                dec == b64_decode(input@),
                out_len == dec.len(),
                out_len + pad == 3 * blocks,
                3 * blocks <= output@.len(),
                output@.len() <= usize::MAX,
                g < blocks,
                m <= 3,
                v == b64_block(input@, g as int),
                output@.len() == old(output)@.len(),
                forall|i: int| 0 <= i < 3 * g + m && i < out_len ==> output@[i] == #[trigger] dec[i],
                forall|i: int| (3 * g + m <= i || out_len <= i) && 0 <= i < output@.len() ==> output@[i]
                    == old(output)@[i],
            decreases 3 - m,
        {
            proof {
                lemma_block_index(3, g as int, m as int);
            }
            if 3 * g + m < out_len {
                let sh: u32 = (16 - 8 * m) as u32;
                let byte: u32 = (v >> sh) & 0xff;
                assert(byte < 256) by (bit_vector)
                    requires
                        byte == (v >> sh) & 0xff,
                ;
                output[3 * g + m] = byte as u8;
            }
            m = m + 1;
        }
        g = g + 1;
    }
    proof {
        assert(b64_chars_ok(input@));
        assert(final(output)@ =~= dec + old(output)@.skip(out_len as int));
    }
    Ok(out_len)
}

/// Facts on the 24-bit number of three bytes: its four six-bit fields put back together
/// give it again, its bytes come back out, and a zero byte leaves its fields zero.
proof fn lemma_b64_bits(b0: u32, b1: u32, b2: u32)
    requires
        b0 < 256,
        b1 < 256,
        b2 < 256,
    ensures
        ({
            let v = (b0 << 16) | (b1 << 8) | b2;
            &&& ((v >> 18u32) & 63) < 64
            &&& ((v >> 12u32) & 63) < 64
            &&& ((v >> 6u32) & 63) < 64
            &&& ((v >> 0u32) & 63) < 64
            &&& (((v >> 18u32) & 63) << 18) | (((v >> 12u32) & 63) << 12) | (((v >> 6u32) & 63) << 6)
                | ((v >> 0u32) & 63) == v
            &&& ((v >> 16u32) & 0xff) == b0
            &&& ((v >> 8u32) & 0xff) == b1
            &&& ((v >> 0u32) & 0xff) == b2
            &&& (b2 == 0 ==> (v >> 0u32) & 63 == 0)
            &&& (b1 == 0 && b2 == 0 ==> (v >> 6u32) & 63 == 0)
        }),
{
    let v = (b0 << 16) | (b1 << 8) | b2;
    assert(((v >> 18u32) & 63) < 64 && ((v >> 12u32) & 63) < 64 && ((v >> 6u32) & 63) < 64 && ((v
        >> 0u32) & 63) < 64) by (bit_vector);
    assert((((v >> 18u32) & 63) << 18) | (((v >> 12u32) & 63) << 12) | (((v >> 6u32) & 63) << 6) | ((v
        >> 0u32) & 63) == v) by (bit_vector)
        requires
            v == (b0 << 16) | (b1 << 8) | b2,
            b0 < 256,
            b1 < 256,
            b2 < 256,
    ;
    assert(((v >> 16u32) & 0xff) == b0 && ((v >> 8u32) & 0xff) == b1 && ((v >> 0u32) & 0xff) == b2)
        by (bit_vector)
        requires
            v == (b0 << 16) | (b1 << 8) | b2,
            b0 < 256,
            b1 < 256,
            b2 < 256,
    ;
    assert(b2 == 0 ==> (v >> 0u32) & 63 == 0) by (bit_vector)
        requires
            v == (b0 << 16) | (b1 << 8) | b2,
    ;
    assert(b1 == 0 && b2 == 0 ==> (v >> 6u32) & 63 == 0) by (bit_vector)
        requires
            v == (b0 << 16) | (b1 << 8) | b2,
    ;
}

/// Each value below 64 is read back from its character, which is never `=`.
proof fn lemma_b64_alphabet()
    ensures
        forall|x: u8|
            x < 64 ==> #[trigger] b64_value(b64_char(x)) == x as u32 && is_b64_char(b64_char(x))
                && b64_char(x) != PAD,
{
}

/// Block `g` of the text of `b` is group `g` of `b`, and character `4 * g + j` of the
/// text is `=` exactly where no data of `b` reaches it.
proof fn lemma_b64_block_of_encode(b: Seq<u8>, g: int)
    requires
        0 <= g < (b.len() + 2) / 3,
    ensures
        b64_block(b64_encode(b), g) == b64_group(b, g),
        forall|j: int|
            0 <= j < 4 ==> (#[trigger] b64_encode(b)[4 * g + j] == PAD <==> 3 * g + j > b.len()),
        forall|j: int|
            0 <= j < 4 && 3 * g + j <= b.len() ==> is_b64_char(#[trigger] b64_encode(b)[4 * g + j]),
{
    let s = b64_encode(b);
    let n = b.len() as int;
    let v = b64_group(b, g);
    lemma_b64_alphabet();
    lemma_b64_bits(b64_byte(b, 3 * g), b64_byte(b, 3 * g + 1), b64_byte(b, 3 * g + 2));
    lemma_block_index(4, g, 0);
    lemma_block_index(4, g, 1);
    lemma_block_index(4, g, 2);
    lemma_block_index(4, g, 3);
    assert(s[4 * g] == b64_char(b64_field(v, 0)));
    assert(s[4 * g + 1] == b64_char(b64_field(v, 1)));
    if n - 3 * g >= 2 {
        assert(s[4 * g + 2] == b64_char(b64_field(v, 2)));
    } else {
        assert(s[4 * g + 2] == PAD);
    }
    if n - 3 * g >= 3 {
        assert(s[4 * g + 3] == b64_char(b64_field(v, 3)));
    } else {
        assert(s[4 * g + 3] == PAD);
    }
}

/// Decoding the base64 text of any bytes gives those bytes back, given room for three
/// bytes per block of the text.
pub proof fn b64_round_trip(b: Seq<u8>, cap: int)
    requires
        cap >= 3 * ((b.len() + 2) / 3),
    ensures
        b64_decode_outcome(b64_encode(b), cap) == Ok::<Seq<u8>, ConvertError>(b),
{
    let s = b64_encode(b);
    let n = b.len() as int;
    let groups = (n + 2) / 3;
    let p = 3 * groups - n;
    assert(n <= 3 * groups <= n + 2);
    assert forall|k: int| 0 <= k < s.len() implies (#[trigger] s[k] == PAD <==> k >= s.len() - p) && (
    k < s.len() - p ==> is_b64_char(s[k])) by {
        vstd::arithmetic::div_mod::lemma_fundamental_div_mod(k, 4);
        let g = k / 4;
        let j = k % 4;
        assert(k == 4 * g + j);
        lemma_b64_block_of_encode(b, g);
    }
    if p < s.len() {
        assert(s[s.len() - p - 1] != PAD);
    }
    crate::padding::lemma_trailing_pad_of(s, p as nat);
    let d = b64_decode(s);
    assert(d.len() == n);
    assert forall|i: int| 0 <= i < n implies #[trigger] d[i] == b[i] by {
        vstd::arithmetic::div_mod::lemma_fundamental_div_mod(i, 3);
        let g = i / 3;
        let m = i % 3;
        lemma_b64_block_of_encode(b, g);
        lemma_b64_bits(b64_byte(b, 3 * g), b64_byte(b, 3 * g + 1), b64_byte(b, 3 * g + 2));
        assert(i == 3 * g + m);
    }
    assert(d =~= b);
}

/// Encoding into a buffer shorter than the text fails for want of room, and so does
/// decoding the text of the data into a buffer shorter than the data.
pub proof fn b64_short_output(b: Seq<u8>, cap: int)
    ensures
        cap < b64_encoded_len(b.len() as int) ==> b64_encode_outcome(b, cap) == Err::<
            Seq<u8>,
            ConvertError,
        >(ConvertError::InvalidOutputLength),
        cap < b.len() ==> b64_decode_outcome(b64_encode(b), cap) == Err::<Seq<u8>, ConvertError>(
            ConvertError::InvalidOutputLength,
        ),
{
    if cap < b.len() {
        b64_round_trip(b, b.len() + 4int);
        crate::padding::lemma_trailing_pad_shape(b64_encode(b));
    }
}

/// A text of whole blocks in which one character is replaced by one that is neither in
/// the alphabet nor `=` is refused for its content, given room for all its blocks.
pub proof fn b64_rejects_foreign(s: Seq<u8>, i: int, c: u8, cap: int)
    requires
        s.len() % 4 == 0,
        0 <= i < s.len(),
        !is_b64_char(c),
        c != PAD,
        cap >= 3 * (s.len() / 4),
    ensures
        b64_decode_outcome(s.update(i, c), cap) == Err::<Seq<u8>, ConvertError>(ConvertError::InvalidInput),
{
    let t = s.update(i, c);
    crate::padding::lemma_trailing_pad_shape(t);
    assert(t[i] == c);
}

/// The text of `n` bytes is the shortest whole number of 4-character blocks that holds
/// the 4 characters per 3 bytes of its data.
pub proof fn b64_encoded_len_is_least(n: nat)
    ensures
        b64_encoded_len(n as int) % 4 == 0,
        3 * b64_encoded_len(n as int) >= 4 * n,
        3 * (b64_encoded_len(n as int) - 4) < 4 * n,
{
}

} // verus!
