use packet_parsers::hexcodec::{
    decode_hex_token, decode_packet_text, encode_hex, simple_hex, strip_layout_bytes, to_hex,
    HexError,
};

fn string(v: &[char]) -> String {
    v.iter().collect()
}

#[test]
fn packet_text_drops_layout_and_decodes() {
    let text = b"0a 1B\r\n ff\n".to_vec();
    assert_eq!(strip_layout_bytes(&text), b"0a1Bff".to_vec());
    assert_eq!(decode_packet_text(&text), Ok(vec![0x0a, 0x1b, 0xff]));
    assert_eq!(decode_packet_text(&b"".to_vec()), Ok(vec![]));
}

#[test]
fn packet_text_errors() {
    assert_eq!(decode_packet_text(&b"abc".to_vec()), Err(HexError::OddLength));
    assert_eq!(decode_packet_text(&b"a b c".to_vec()), Err(HexError::OddLength));
    assert_eq!(
        decode_packet_text(&b"0g".to_vec()),
        Err(HexError::InvalidHexCharacter { c: 'g', index: 1 })
    );
    // The position is counted in the text without layout characters.
    assert_eq!(
        decode_packet_text(&b"00 11\n2x".to_vec()),
        Err(HexError::InvalidHexCharacter { c: 'x', index: 5 })
    );
    // Odd length is refused before a bad character.
    assert_eq!(decode_packet_text(&b"zz1".to_vec()), Err(HexError::OddLength));
}

#[test]
fn token_decoding_uses_utf8_bytes() {
    let tok: Vec<char> = "0A".chars().collect();
    assert_eq!(decode_hex_token(&tok), Ok(vec![0x0a]));
    let tok: Vec<char> = "é0".chars().collect();
    assert_eq!(decode_hex_token(&tok), Err(HexError::OddLength));
    let tok: Vec<char> = "é".chars().collect();
    assert_eq!(
        decode_hex_token(&tok),
        Err(HexError::InvalidHexCharacter { c: '\u{c3}', index: 0 })
    );
    let tok: Vec<char> = "".chars().collect();
    assert_eq!(decode_hex_token(&tok), Ok(vec![]));
}

#[test]
fn encodings_are_lowercase_pairs() {
    assert_eq!(string(&encode_hex(&vec![0x01, 0xab, 0x00, 0xff])), "01ab00ff");
    assert_eq!(string(&to_hex(&[0x30, 0x05, 0x0c])), "30050c");
    assert_eq!(string(&encode_hex(&vec![])), "");
}

#[test]
fn simple_hex_groups_by_four() {
    assert_eq!(string(&simple_hex(&vec![0, 1, 2, 3, 4, 0xab])), "00 01 02 03  04 ab");
    assert_eq!(string(&simple_hex(&vec![])), "");
    assert_eq!(string(&simple_hex(&vec![0xde])), "de");
}

#[test]
fn decode_of_encode_round_trips() {
    let bytes: Vec<u8> = (0u8..=255).collect();
    let hex: Vec<u8> = string(&encode_hex(&bytes)).into_bytes();
    assert_eq!(decode_packet_text(&hex), Ok(bytes));
}

#[test]
fn simple_hex_without_spaces_is_plain_hex() {
    let bytes: Vec<u8> = (0u8..37).map(|b| b.wrapping_mul(29)).collect();
    let dump: String = string(&simple_hex(&bytes)).replace(' ', "");
    assert_eq!(dump, string(&encode_hex(&bytes)));
}
