use tree_digest::hex_codec::{decode, encode, DecodeError};

#[test]
fn encode_gives_two_lower_case_digits_for_each_byte() {
    assert_eq!(encode(&[0x01, 0x02, 0x03, 0x0f, 0x10]), "0102030f10");
    assert_eq!(encode(&[0x00, 0x9a, 0xbc, 0xde, 0xff]), "009abcdeff");
    assert_eq!(encode(b"Hello world!"), "48656c6c6f20776f726c6421");
}

#[test]
fn encode_of_nothing_is_the_empty_text() {
    assert_eq!(encode(&[]), "");
}

#[test]
fn decode_reads_lower_case() {
    assert_eq!(decode("0102030f10"), Ok(vec![0x01, 0x02, 0x03, 0x0f, 0x10]));
    assert_eq!(decode("f9b4ca"), Ok(vec![0xf9, 0xb4, 0xca]));
}

#[test]
fn decode_reads_upper_and_mixed_case() {
    assert_eq!(decode("F9B4CA"), Ok(vec![0xf9, 0xb4, 0xca]));
    assert_eq!(decode("f9B4Ca"), Ok(vec![0xf9, 0xb4, 0xca]));
    assert_eq!(decode("AbCdEf"), Ok(vec![0xab, 0xcd, 0xef]));
}

#[test]
fn decode_of_the_empty_text_is_nothing() {
    assert_eq!(decode(""), Ok(vec![]));
}

#[test]
fn decode_refuses_an_odd_length() {
    assert_eq!(decode("123"), Err(DecodeError::OddLength));
    assert_eq!(decode("a"), Err(DecodeError::OddLength));
}

#[test]
fn decode_names_the_first_byte_that_is_no_digit() {
    assert_eq!(
        decode("12g4"),
        Err(DecodeError::InvalidHexCharacter { c: 'g', index: 2 })
    );
    assert_eq!(
        decode("zz12xx"),
        Err(DecodeError::InvalidHexCharacter { c: 'z', index: 0 })
    );
    assert_eq!(
        decode("0a1 "),
        Err(DecodeError::InvalidHexCharacter { c: ' ', index: 3 })
    );
}

#[test]
fn decode_refuses_the_neighbours_of_the_digits() {
    for text in ["/0", ":0", "@0", "G0", "`0", "g0"] {
        let c = text.chars().next().unwrap();
        assert_eq!(
            decode(text),
            Err(DecodeError::InvalidHexCharacter { c, index: 0 })
        );
    }
}

#[test]
fn an_odd_length_comes_before_a_bad_digit() {
    assert_eq!(decode("xyz"), Err(DecodeError::OddLength));
}

#[test]
fn decode_judges_bytes_not_characters() {
    // One character of two bytes: an even length, and the first byte is no digit.
    assert_eq!(
        decode("\u{e9}"),
        Err(DecodeError::InvalidHexCharacter { c: '\u{c3}', index: 0 })
    );
    // One digit and one character of two bytes: three bytes.
    assert_eq!(decode("a\u{e9}"), Err(DecodeError::OddLength));
}

#[test]
fn decode_undoes_encode() {
    let all: Vec<u8> = (0..=255).collect();
    assert_eq!(decode(&encode(&all)), Ok(all));
    let digest = vec![0xde, 0xad, 0xbe, 0xef, 0x00, 0x7f, 0x80];
    assert_eq!(decode(&encode(&digest)), Ok(digest));
}
