use binascii::{b32decode, b32encode, b64decode, b64encode, bin2hex, hex2bin, iters, ConvertError};

type Codec = fn(&[u8], &mut [u8]) -> Result<usize, ConvertError>;

fn sample(len: usize) -> Vec<u8> {
    (0..len).map(|i| ((i * 151 + 7) % 256) as u8).collect()
}

fn run(f: Codec, input: &[u8], cap: usize) -> Result<Vec<u8>, ConvertError> {
    let mut out = vec![0xa5u8; cap];
    let n = f(input, &mut out)?;
    assert!(out[n..].iter().all(|&c| c == 0xa5));
    Ok(out[..n].to_vec())
}

const PAIRS: [(Codec, Codec); 3] = [(bin2hex, hex2bin), (b32encode, b32decode), (b64encode, b64decode)];

#[test]
fn round_trip_all_codecs() {
    for (enc, dec) in PAIRS {
        for len in 0..300 {
            let data = sample(len);
            let text = run(enc, &data, 4 * len + 8).unwrap();
            assert_eq!(run(dec, &text, len + 8).unwrap(), data);
        }
    }
}

#[test]
fn encoded_lengths_follow_formula() {
    for n in 0..40usize {
        let data = sample(n);
        assert_eq!(run(bin2hex, &data, 100).unwrap().len(), 2 * n);
        assert_eq!(run(b32encode, &data, 100).unwrap().len(), (n + 4) / 5 * 8);
        assert_eq!(run(b64encode, &data, 100).unwrap().len(), (n + 2) / 3 * 4);
    }
    assert_eq!(run(b32encode, &sample(5), 100).unwrap().len(), 8);
    assert_eq!(run(b32encode, &sample(6), 100).unwrap().len(), 16);
    assert_eq!(run(b64encode, &sample(4), 100).unwrap().len(), 8);
}

#[test]
fn one_byte_short_fails_and_writes_nothing() {
    for (enc, dec) in PAIRS {
        for len in 1..40 {
            let data = sample(len);
            let text = run(enc, &data, 200).unwrap();
            let mut out = vec![0xa5u8; text.len() - 1];
            assert_eq!(enc(&data, &mut out), Err(ConvertError::InvalidOutputLength));
            assert!(out.iter().all(|&c| c == 0xa5));
            let mut out = vec![0xa5u8; len - 1];
            assert_eq!(dec(&text, &mut out), Err(ConvertError::InvalidOutputLength));
            assert!(out.iter().all(|&c| c == 0xa5));
        }
    }
}

#[test]
fn foreign_character_is_rejected() {
    for (enc, dec) in PAIRS {
        for len in 1..20 {
            let text = run(enc, &sample(len), 200).unwrap();
            for i in 0..text.len() {
                for bad in [b'!', b' ', b'\n', 0u8, 0xffu8, b'g', b'~'] {
                    let is_hex = enc == bin2hex as Codec;
                    if !is_hex && bad == b'g' {
                        continue;
                    }
                    let mut t = text.clone();
                    t[i] = bad;
                    assert_eq!(run(dec, &t, 200), Err(ConvertError::InvalidInput), "{:?}", t);
                }
            }
        }
    }
}

#[test]
fn base32_pad_counts() {
    for (rem, pads) in [(1usize, 6usize), (2, 4), (3, 3), (4, 1), (0, 0)] {
        for groups in 0..3 {
            let data = sample(groups * 5 + rem);
            let text = run(b32encode, &data, 100).unwrap();
            let count = text.iter().rev().take_while(|&&c| c == b'=').count();
            assert_eq!(count, pads);
            assert_eq!(run(b32decode, &text, 100).unwrap(), data);
        }
    }
}

#[test]
fn hex_vectors() {
    assert_eq!(run(bin2hex, &[0x1f, 0xf2], 10).unwrap(), b"1ff2");
    assert_eq!(run(bin2hex, &[0x00, 0xab, 0x9c], 6).unwrap(), b"00ab9c");
    assert_eq!(run(hex2bin, b"1f2F3d4d", 4).unwrap(), vec![0x1f, 0x2f, 0x3d, 0x4d]);
    assert_eq!(run(hex2bin, b"", 0).unwrap(), Vec::<u8>::new());
    assert_eq!(run(hex2bin, b"a", 10), Err(ConvertError::InvalidInputLength));
    assert_eq!(run(hex2bin, b"z1", 10), Err(ConvertError::InvalidInput));
    assert_eq!(run(hex2bin, b"a1a2a3a4", 3), Err(ConvertError::InvalidOutputLength));
    assert_eq!(run(iters::bin2hex, &[0xff], 2).unwrap(), b"ff");
}

#[test]
fn base32_vectors() {
    let cases: [(&[u8], &[u8]); 7] = [
        (b"", b""),
        (b"f", b"MY======"),
        (b"fo", b"MZXQ===="),
        (b"foo", b"MZXW6==="),
        (b"foob", b"MZXW6YQ="),
        (b"fooba", b"MZXW6YTB"),
        (b"foobar", b"MZXW6YTBOI======"),
    ];
    for (data, text) in cases {
        assert_eq!(run(b32encode, data, 16).unwrap(), text);
        assert_eq!(run(iters::b32encode, data, 16).unwrap(), text);
        assert_eq!(run(b32decode, text, data.len()).unwrap(), data);
    }
}

#[test]
fn base32_errors() {
    assert_eq!(run(b32decode, b"MZXW6", 10), Err(ConvertError::InvalidInputLength));
    assert_eq!(run(b32decode, b"MZXW6YTB", 4), Err(ConvertError::InvalidOutputLength));
    assert_eq!(run(b32encode, b"fooba", 7), Err(ConvertError::InvalidOutputLength));
    // seven, five or two `=` cannot end a block
    assert_eq!(run(b32decode, b"M=======", 10), Err(ConvertError::InvalidInput));
    assert_eq!(run(b32decode, b"MZX=====", 10), Err(ConvertError::InvalidInput));
    assert_eq!(run(b32decode, b"MZXW6Y==", 10), Err(ConvertError::InvalidInput));
    // `=` before the final run, or lowercase letters
    assert_eq!(run(b32decode, b"MY======MZXW6YTB", 20), Err(ConvertError::InvalidInput));
    assert_eq!(run(b32decode, b"mzxw6ytb", 10), Err(ConvertError::InvalidInput));
}

#[test]
fn base64_vectors() {
    let cases: [(&[u8], &[u8]); 6] = [
        (b"", b""),
        (b"f", b"Zg=="),
        (b"fo", b"Zm8="),
        (b"foo", b"Zm9v"),
        (b"foob", b"Zm9vYg=="),
        (b"\xfb\xff\xbf", b"+/+/"),
    ];
    for (data, text) in cases {
        assert_eq!(run(b64encode, data, 8).unwrap(), text);
        assert_eq!(run(b64decode, text, 6).unwrap(), data);
    }
    // two `=` leave one byte, one `=` leaves two
    assert_eq!(run(b64decode, b"QQ==", 3).unwrap(), b"A");
    assert_eq!(run(b64decode, b"QUI=", 3).unwrap(), b"AB");
}

#[test]
fn base64_errors() {
    assert_eq!(run(b64decode, b"QUJD1", 10), Err(ConvertError::InvalidInputLength));
    // room is asked for three bytes per block, whatever the padding
    assert_eq!(run(b64decode, b"QQ==", 2), Err(ConvertError::InvalidOutputLength));
    assert_eq!(run(b64encode, b"f", 3), Err(ConvertError::InvalidOutputLength));
    assert_eq!(run(b64decode, b"=QUI", 10), Err(ConvertError::InvalidInput));
    assert_eq!(run(b64decode, b"Q===", 10), Err(ConvertError::InvalidInput));
    assert_eq!(run(b64decode, b"QU=I", 10), Err(ConvertError::InvalidInput));
    assert_eq!(run(b64decode, b"QQ==QUJD", 10), Err(ConvertError::InvalidInput));
    assert_eq!(run(b64decode, b"QU-D", 10), Err(ConvertError::InvalidInput));
}
