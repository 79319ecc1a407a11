use packet_parsers::hexcodec::HexError;
use packet_parsers::protocols::{
    decode_hex_tokens, ntp_dump, snmp_dump, ssh_dump, tls_dump, tls_extension_panics,
    tls_is_encrypted, TokenError,
};

fn chars(s: &str) -> Vec<char> {
    s.chars().collect()
}

fn string(v: &[char]) -> String {
    v.iter().collect()
}

#[test]
fn hex_tokens_give_last_bytes() {
    assert_eq!(decode_hex_tokens(&chars("0a 1b\nff \n")), Ok(vec![0x0a, 0x1b, 0xff]));
    assert_eq!(decode_hex_tokens(&chars("0a1b 2c3d")), Ok(vec![0x1b, 0x3d]));
    assert_eq!(decode_hex_tokens(&chars("0a  1b")), Err(TokenError::EmptyToken));
    assert_eq!(decode_hex_tokens(&chars("")), Err(TokenError::EmptyToken));
    assert_eq!(
        decode_hex_tokens(&chars("0a zz")),
        Err(TokenError::Decode(HexError::InvalidHexCharacter { c: 'z', index: 0 }))
    );
    assert_eq!(
        decode_hex_tokens(&chars("0a 1")),
        Err(TokenError::Decode(HexError::OddLength))
    );
    assert_eq!(
        decode_hex_tokens(&chars("0a\r\n1b")),
        Err(TokenError::Decode(HexError::OddLength))
    );
    assert_eq!(
        decode_hex_tokens(&chars("0a\r0\n1b")),
        Err(TokenError::Decode(HexError::InvalidHexCharacter { c: '\r', index: 2 }))
    );
}

#[test]
fn tls_extension() {
    assert!(tls_is_encrypted(&chars("capture.enc\n")));
    assert!(tls_is_encrypted(&chars("dir.v2/capture.enc \n")));
    assert!(!tls_is_encrypted(&chars("capture.txt\n")));
    assert!(!tls_is_encrypted(&chars("capture.enc.txt\n")));
    assert!(!tls_is_encrypted(&chars("capture\n")));
    // The dot's position in the trimmed name is used in the untrimmed line.
    assert!(!tls_is_encrypted(&chars("  x.enc\n")));
    assert!(!tls_extension_panics(&chars("  x.enc\n")));
    assert!(tls_extension_panics(&chars("é.enc\n")));
    assert!(!tls_extension_panics(&chars("ab.é\n")));
}

#[test]
fn ntp_packet_is_dumped() {
    let mut p = vec![0u8; 48];
    p[0] = 0x23; // version 4, client mode
    p[2] = 6;
    let r = ntp_dump(&p);
    let text = string(&r.unwrap());
    assert!(text.starts_with("NtpV4Packet {"));
    assert!(text.contains("mode"));
    let mut p3 = vec![0u8; 48];
    p3[0] = 0x1b; // version 3, client mode
    let text = string(&ntp_dump(&p3).unwrap());
    assert!(text.starts_with("NtpV3Packet {"));
    assert!(ntp_dump(&vec![0x23, 0, 0]).is_err());
    assert!(ntp_dump(&vec![]).is_err());
}

#[test]
fn malformed_messages_report_errors() {
    assert!(snmp_dump(&vec![0x30, 0x03, 0x02]).is_err());
    assert!(ssh_dump(&vec![0, 0, 0]).is_err());
    assert!(tls_dump(false, &vec![0x16, 0x03]).is_err());
    assert!(tls_dump(true, &vec![]).is_err());
}

#[test]
fn tls_records_are_dumped() {
    // An alert record: level 2, description 40.
    let rec = vec![0x15, 0x03, 0x03, 0x00, 0x02, 0x02, 0x28];
    let text = string(&tls_dump(false, &rec).unwrap());
    assert!(text.starts_with("TlsPlaintext {"));
    let text = string(&tls_dump(true, &rec).unwrap());
    assert!(text.starts_with("TlsEncrypted {"));
}
