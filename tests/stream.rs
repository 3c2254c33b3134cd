use playfair::{ByteSource, PlayfairDecoder, PlayfairEncoder};

const TEST_KEY: &'static str = "playfairexample";
const SHORT_ODD: &'static str = "aksjdaksdjh";
const SHORT_ODD_ANS: &'static str = "pokmoenkbegm";
const SHORT: &'static str = "aksjdaksdj";
const SHORT_ANS: &'static str = "pokmoenkbe";
const SHORT_DUP: &'static str = "aabbccdd";
const SHORT_DUP_ANS: &'static str = "yepdcddgge";

#[test]
fn buf_file_dup() {
    let reader = SHORT_DUP.as_bytes();
    let mut encoder = PlayfairEncoder::new(TEST_KEY, reader);
    let mut buf = [0u8; 64];
    let size = encoder.read(&mut buf).unwrap();
    assert_eq!(size, SHORT_DUP_ANS.len());
    assert_eq!(std::str::from_utf8(&buf[..size]).unwrap(), SHORT_DUP_ANS);
}

#[test]
fn buf_file_odd() {
    let reader = SHORT_ODD.as_bytes();
    let mut encoder = PlayfairEncoder::new(TEST_KEY, reader);
    let mut buf = [0u8; 64];
    let size = encoder.read(&mut buf).unwrap();
    assert_eq!(size, SHORT_ODD_ANS.len());
    assert_eq!(std::str::from_utf8(&buf[..size]).unwrap(), SHORT_ODD_ANS);
}

#[test]
fn buf_file() {
    let reader = SHORT.as_bytes();
    let mut encoder = PlayfairEncoder::new(TEST_KEY, reader);
    let mut buf = [0u8; 64];
    let size = encoder.read(&mut buf).unwrap();
    assert_eq!(size, SHORT_ANS.len());
    assert_eq!(std::str::from_utf8(&buf[..size]).unwrap(), SHORT_ANS);
}

#[test]
fn buf_odd_file() {
    let reader = SHORT.as_bytes();
    let mut encoder = PlayfairEncoder::new(TEST_KEY, reader);
    let mut buf = [0u8; 63];
    let size = encoder.read(&mut buf).unwrap();
    assert_eq!(size, SHORT_ANS.len());
    assert_eq!(std::str::from_utf8(&buf[..size]).unwrap(), SHORT_ANS);
}

#[test]
fn buf_odd_file_odd() {
    let reader = SHORT_ODD.as_bytes();
    let mut encoder = PlayfairEncoder::new(TEST_KEY, reader);
    let mut buf = [0u8; 63];
    let size = encoder.read(&mut buf).unwrap();
    assert_eq!(size, SHORT_ODD_ANS.len());
    assert_eq!(std::str::from_utf8(&buf[..size]).unwrap(), SHORT_ODD_ANS);
}

/// Reads an encoder to its end in chunks of `size` bytes.
fn encode_in_chunks(key: &str, input: &[u8], size: usize) -> Vec<u8> {
    let mut encoder = PlayfairEncoder::new(key, input);
    let mut out = Vec::new();
    let mut buf = vec![0u8; size];
    loop {
        let n = encoder.read(&mut buf).unwrap();
        assert!(n <= size);
        if n == 0 {
            return out;
        }
        out.extend_from_slice(&buf[..n]);
    }
}

/// Reads a decoder to its end in chunks of `size` bytes.
fn decode_in_chunks(key: &str, input: &[u8], size: usize) -> Vec<u8> {
    let mut decoder = PlayfairDecoder::new(key, input);
    let mut out = Vec::new();
    let mut buf = vec![0u8; size];
    loop {
        let n = decoder.read(&mut buf).unwrap();
        if n == 0 {
            return out;
        }
        out.extend_from_slice(&buf[..n]);
    }
}

#[test]
fn empty_buffer_reads_nothing() {
    let mut encoder = PlayfairEncoder::new(TEST_KEY, SHORT_ODD.as_bytes());
    let mut empty: [u8; 0] = [];
    assert_eq!(encoder.read(&mut empty).unwrap(), 0);
    assert_eq!(encoder.read(&mut empty).unwrap(), 0);
    let mut buf = [0u8; 64];
    let size = encoder.read(&mut buf).unwrap();
    assert_eq!(&buf[..size], SHORT_ODD_ANS.as_bytes());
}

#[test]
fn one_byte_reads_match_one_large_read() {
    for (input, expected) in [(SHORT, SHORT_ANS), (SHORT_ODD, SHORT_ODD_ANS), (SHORT_DUP, SHORT_DUP_ANS)] {
        assert_eq!(encode_in_chunks(TEST_KEY, input.as_bytes(), 1), expected.as_bytes());
    }
}

#[test]
fn any_buffer_size_gives_the_same_output() {
    for input in [SHORT, SHORT_ODD, SHORT_DUP, "xx", "x", "a", "balloon", "HELLO world!"] {
        let whole = encode_in_chunks(TEST_KEY, input.as_bytes(), 4096);
        for size in 1..=16 {
            assert_eq!(encode_in_chunks(TEST_KEY, input.as_bytes(), size), whole);
        }
    }
}

#[test]
fn duplicate_letters_get_fillers() {
    assert_eq!(encode_in_chunks(TEST_KEY, b"balloon", 64), b"dpyranqo");
    assert_eq!(decode_in_chunks(TEST_KEY, b"dpyranqo", 64), b"balxloon");
    assert_eq!(encode_in_chunks(TEST_KEY, b"xx", 64), b"gwgw");
    assert_eq!(decode_in_chunks(TEST_KEY, b"gwgw", 64), b"xqxq");
}

#[test]
fn lone_last_letter_pairs_with_x() {
    assert_eq!(encode_in_chunks(TEST_KEY, b"a", 64), b"ye");
    assert_eq!(encode_in_chunks(TEST_KEY, b"x", 64), b"gw");
    assert_eq!(encode_in_chunks(TEST_KEY, b"instruments", 3), b"rkkzclixkuqm");
}

#[test]
fn empty_input_gives_nothing() {
    assert_eq!(encode_in_chunks(TEST_KEY, b"", 8), b"");
    assert_eq!(decode_in_chunks(TEST_KEY, b"", 8), b"");
}

#[test]
fn uppercase_and_non_letters_are_folded() {
    assert_eq!(encode_in_chunks(TEST_KEY, b"HELLO world!", 5), b"dmyrangyneacgw");
    assert_eq!(encode_in_chunks(TEST_KEY, b"jj", 1), b"rmrm");
}

#[test]
fn decoding_undoes_encoding() {
    let plain = "hidethegoldinthetrexestump";
    let cipher = encode_in_chunks(TEST_KEY, plain.as_bytes(), 7);
    assert_eq!(cipher, b"bmodzbxdnabekudmuixmmouvif");
    for size in [1, 2, 3, 64] {
        assert_eq!(decode_in_chunks(TEST_KEY, &cipher, size), plain.as_bytes());
    }
    assert_eq!(decode_in_chunks(TEST_KEY, SHORT_ANS.as_bytes(), 5), b"aksidaksdi");
}

#[test]
fn long_input_crosses_read_ahead_refills() {
    let mut input = Vec::new();
    let mut state: u32 = 7;
    for _ in 0..20011 {
        state = state.wrapping_mul(1103515245).wrapping_add(12345);
        input.push(b'a' + ((state >> 16) % 26) as u8);
    }
    let whole = encode_in_chunks(TEST_KEY, &input, 1 << 16);
    for size in [1, 2, 3, 63, 64, 8191, 8192, 8193] {
        assert_eq!(encode_in_chunks(TEST_KEY, &input, size), whole);
    }
    // The whole output follows the rule pair by pair.
    let square = playfair::Cipherer::with(TEST_KEY.as_bytes());
    let mut expected = Vec::new();
    let mut i = 0;
    while i < input.len() {
        let partner = if i + 1 < input.len() { input[i + 1] } else { b'x' };
        let outcome = square.cipher(input[i], partner, false);
        let (x, y) = outcome.unwrap();
        expected.push(x);
        expected.push(y);
        i += if i + 1 < input.len() && !outcome.is_duplicate() { 2 } else { 1 };
    }
    assert_eq!(whole, expected);
}

#[test]
fn slice_source_reads_in_order() {
    let mut source: &[u8] = b"abcdef";
    let mut buf = [0u8; 4];
    assert_eq!(source.read_into(&mut buf), Ok(4));
    assert_eq!(&buf, b"abcd");
    assert_eq!(source.read_into(&mut buf), Ok(2));
    assert_eq!(&buf[..2], b"ef");
    assert_eq!(source.read_into(&mut buf), Ok(0));
}
