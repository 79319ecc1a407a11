use packet_parsers::ccsds::{read_header, split_packets, PacketType};
use packet_parsers::spoof::{
    check_fields, packet_type_bit, parse_field, primary_header_u64, spoof_packet_text,
    string_to_octets, u64_be_bytes, FieldError,
};
use packet_parsers::text::IntErrorKind;

fn chars(s: &str) -> Vec<char> {
    s.chars().collect()
}

fn string(v: &[char]) -> String {
    v.iter().collect()
}

#[test]
fn fields_are_trimmed_then_parsed() {
    assert_eq!(parse_field(&chars(" 7\n")), Ok(7));
    assert_eq!(parse_field(&chars("2047\r\n")), Ok(2047));
    assert_eq!(parse_field(&chars("abc\n")), Err(IntErrorKind::InvalidDigit));
    assert_eq!(parse_field(&chars("70000\n")), Err(IntErrorKind::PosOverflow));
    assert_eq!(parse_field(&chars("\n")), Err(IntErrorKind::Empty));
    assert_eq!(parse_field(&chars("-1\n")), Err(IntErrorKind::InvalidDigit));
}

#[test]
fn only_exact_telemtry_is_telemetry() {
    assert_eq!(packet_type_bit(&chars("telemtry\n")), 0);
    assert_eq!(packet_type_bit(&chars("telemtry")), 0);
    assert_eq!(packet_type_bit(&chars("Telemtry\n")), 1);
    assert_eq!(packet_type_bit(&chars("telemetry\n")), 1);
    assert_eq!(packet_type_bit(&chars("telemtry\r\n")), 1);
    assert_eq!(packet_type_bit(&chars("Command\n")), 1);
}

#[test]
fn header_packing() {
    // version 1, command, APID 5, sequence count 3, 5 data bytes: length word 5
    let x = primary_header_u64(1, 1, 5, 3, 5);
    assert_eq!(x, 0x3005_0003_0005);
    assert_eq!(u64_be_bytes(x), vec![0, 0, 0x30, 0x05, 0x00, 0x03, 0x00, 0x05]);
    // The largest values that fit their bits.
    assert_eq!(primary_header_u64(7, 1, 2047, 16383, 65535), 0xF7FF_3FFF_FFFF);
}

#[test]
fn fields_too_large_for_their_bits() {
    assert_eq!(check_fields(7, 1, 2047, 16383, 65535), None);
    assert_eq!(check_fields(8, 0, 0, 0, 0), Some(FieldError::Version));
    assert_eq!(check_fields(0, 2, 0, 0, 0), Some(FieldError::PacketType));
    assert_eq!(check_fields(0, 0, 2048, 0, 0), Some(FieldError::Apid));
    assert_eq!(check_fields(0, 0, 0, 16384, 0), Some(FieldError::SequenceCount));
    assert_eq!(check_fields(0, 0, 0, 0, 65536), Some(FieldError::DataLength));
    // The first field in header order is the one reported.
    assert_eq!(check_fields(9, 0, 4000, 0, 0), Some(FieldError::Version));
    assert_eq!(check_fields(0, 0, 4000, 20000, 0), Some(FieldError::Apid));
}

#[test]
fn octets_of_text() {
    let o: Vec<String> = string_to_octets(&chars("abcd")).iter().map(|p| string(p)).collect();
    assert_eq!(o, vec!["ab", "cd"]);
    let o: Vec<String> = string_to_octets(&chars("abc")).iter().map(|p| string(p)).collect();
    assert_eq!(o, vec![""]);
    let o: Vec<String> = string_to_octets(&chars("")).iter().map(|p| string(p)).collect();
    assert!(o.is_empty());
    // Odd length is judged on UTF-8 bytes; pairs are made of characters.
    let o: Vec<String> = string_to_octets(&chars("éa")).iter().map(|p| string(p)).collect();
    assert_eq!(o, vec![""]);
    let o: Vec<String> = string_to_octets(&chars("ééé")).iter().map(|p| string(p)).collect();
    assert_eq!(o, vec!["éé"]);
}

#[test]
fn spoofed_packet_text() {
    let data = vec![0xde, 0xad, 0xbe, 0xef, 0x01];
    let text = string(&spoof_packet_text(1, 1, 5, 3, &data).unwrap());
    assert_eq!(text, " 30 05 00 03 00 05 de ad be ef 01");
    let text = string(&spoof_packet_text(0, 0, 0, 0, &vec![]).unwrap());
    assert_eq!(text, " 00 00 00 00 00 00");
}

#[test]
fn spoofing_refuses_oversized_fields() {
    let data = vec![1, 2];
    assert_eq!(spoof_packet_text(8, 1, 5, 3, &data), Err(FieldError::Version));
    assert_eq!(spoof_packet_text(1, 1, 2048, 3, &data), Err(FieldError::Apid));
    assert_eq!(spoof_packet_text(1, 1, 5, 16384, &data), Err(FieldError::SequenceCount));
    assert_eq!(spoof_packet_text(1, 3, 5, 3, &data), Err(FieldError::PacketType));
    let big = vec![0u8; 65536];
    assert_eq!(spoof_packet_text(1, 1, 5, 3, &big), Err(FieldError::DataLength));
    let most = vec![0u8; 65535];
    let text = string(&spoof_packet_text(1, 1, 5, 3, &most).unwrap());
    assert!(text.starts_with(" 30 05 00 03 ff ff 00 00"));
    assert_eq!(text.len(), 3 * (6 + 65535));
}

#[test]
fn spoofed_header_reads_back() {
    let data: Vec<u8> = (0..40).collect();
    let x = primary_header_u64(2, 1, 1234, 9000, data.len());
    let b = u64_be_bytes(x);
    let h = [b[2], b[3], b[4], b[5], b[6], b[7]];
    let f = read_header(h);
    assert_eq!(f.version, 2);
    assert_eq!(f.packet_type, PacketType::Command);
    assert_eq!(f.apid, 1234);
    assert_eq!(f.sequence_count, 9000);
    // The length word holds the number of data bytes; the reader adds one.
    assert_eq!(f.data_length, 40 + 1);
    let mut stream = h.to_vec();
    stream.extend_from_slice(&data);
    stream.push(0xAA);
    let r = split_packets(&stream);
    assert_eq!(r.len(), 1);
    let mut taken = data.clone();
    taken.push(0xAA);
    assert_eq!(r[0].data, Some(taken));
}
