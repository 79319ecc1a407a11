use packet_parsers::ccsds::{
    data_line_file, data_line_terminal, extract_header, header_report, output_to_file,
    read_header, split_packets, HeaderFields, PacketType,
};

fn string(v: &[char]) -> String {
    v.iter().collect()
}

fn args(a: &[&str]) -> Vec<Vec<char>> {
    a.iter().map(|s| s.chars().collect()).collect()
}

#[test]
fn header_fields_are_read_big_endian() {
    let f = read_header([0x38, 0x05, 0xC0, 0x2A, 0x00, 0x02]);
    assert_eq!(
        f,
        HeaderFields {
            version: 1,
            packet_type: PacketType::Command,
            apid: 5,
            sequence_count: 42,
            packet_length: 9,
            data_length: 3,
        }
    );
    let f = read_header([0x08, 0x01, 0xFF, 0xFF, 0xFF, 0xFF]);
    assert_eq!(f.version, 0);
    assert_eq!(f.packet_type, PacketType::Data);
    assert_eq!(f.apid, 1);
    assert_eq!(f.sequence_count, 0x3FFF);
    assert_eq!(f.packet_length, 65535 + 7);
    assert_eq!(f.data_length, 65536);
    assert_eq!(f.data_length + 6, f.packet_length);
}

#[test]
fn extract_header_pads_with_zeros() {
    assert_eq!(extract_header(&vec![1, 2, 3, 4, 5, 6]), [1, 2, 3, 4, 5, 6]);
    assert_eq!(extract_header(&vec![9, 8]), [9, 8, 0, 0, 0, 0]);
    assert_eq!(extract_header(&vec![]), [0; 6]);
}

#[test]
fn split_takes_data_length_bytes() {
    // First packet: length field 2, so three data bytes.
    // Second packet: length field 0 (data length 1), but two data bytes are taken.
    // Third packet: a header and one data byte of three.
    let mut s = vec![0x08, 0x01, 0xC0, 0x00, 0x00, 0x02, 0xAA, 0xBB, 0xCC];
    s.extend_from_slice(&[0x18, 0x02, 0xC0, 0x01, 0x00, 0x00, 0x11, 0x22]);
    s.extend_from_slice(&[0x08, 0x03, 0x00, 0x02, 0x00, 0x02, 0x33]);
    let r = split_packets(&s);
    assert_eq!(r.len(), 3);
    assert_eq!(r[0].number, 1);
    assert_eq!(r[0].header, [0x08, 0x01, 0xC0, 0x00, 0x00, 0x02]);
    assert_eq!(r[0].data, Some(vec![0xAA, 0xBB, 0xCC]));
    assert_eq!(r[1].number, 2);
    assert_eq!(r[1].fields.packet_type, PacketType::Command);
    assert_eq!(r[1].fields.data_length, 1);
    assert_eq!(r[1].data, Some(vec![0x11, 0x22]));
    assert_eq!(r[2].number, 3);
    assert_eq!(r[2].fields.apid, 3);
    assert_eq!(r[2].data, None);
}

#[test]
fn split_needs_a_byte_after_the_header() {
    assert!(split_packets(&vec![0x08, 0x01, 0xC0, 0x00, 0x00, 0x02]).is_empty());
    assert!(split_packets(&vec![]).is_empty());
    let r = split_packets(&vec![0x08, 0x01, 0xC0, 0x00, 0x00, 0x02, 0x01]);
    assert_eq!(r.len(), 1);
    assert_eq!(r[0].data, None);
}

#[test]
fn split_tiles_the_stream() {
    let s: Vec<u8> = (0..200u32).map(|i| if i % 9 == 4 { 0 } else { (i * 7) as u8 }).collect();
    let r = split_packets(&s);
    let mut joined: Vec<u8> = Vec::new();
    for (k, p) in r.iter().enumerate() {
        assert_eq!(p.number, k + 1);
        joined.extend_from_slice(&p.header);
        if let Some(d) = &p.data {
            let n = p.fields.data_length.max(2) as usize;
            assert_eq!(d.len(), n);
            joined.extend_from_slice(d);
        }
    }
    assert_eq!(&s[..joined.len()], &joined[..]);
}

#[test]
fn output_mode_follows_last_answer() {
    assert!(!output_to_file(&args(&["reader"])));
    assert!(output_to_file(&args(&["reader", "y"])));
    assert!(output_to_file(&args(&["reader", "Y"])));
    assert!(!output_to_file(&args(&["reader", "Y", "n"])));
    assert!(output_to_file(&args(&["reader", "N", "x", "y", "yes"])));
    assert!(!output_to_file(&args(&["reader", "yes"])));
}

#[test]
fn header_report_lines() {
    let f = read_header([0x38, 0x05, 0xC0, 0x2A, 0x00, 0x02]);
    let text = string(&header_report(1, &f));
    assert_eq!(
        text,
        "Packet ID: 1\nVersion: 1\nAPID: 5\nPacket type: Command\nSource sequence count: 42\nPacket Length: 9\nData Length: 3\n"
    );
    let f = read_header([0x08, 0x01, 0xC0, 0x00, 0x00, 0x00]);
    let text = string(&header_report(12, &f));
    assert!(text.starts_with("Packet ID: 12\n"));
    assert!(text.contains("Packet type: Telemtry\n"));
}

#[test]
fn data_lines() {
    assert_eq!(string(&data_line_file(&vec![0x0a, 0xff, 0x00])), "Data: 0aff00\n");
    assert_eq!(string(&data_line_terminal(&vec![0x0a, 0xff, 0x00])), "Data: [a, ff, 0]\n");
    assert_eq!(
        string(&data_line_terminal(&vec![0x0a, 0xff, 0x00])),
        format!("Data: {:x?}\n", vec![0x0au8, 0xff, 0x00])
    );
    assert_eq!(string(&data_line_terminal(&vec![])), "Data: []\n");
}
