//! CCSDS space packets: splitting a byte stream into packets, reading their
//! primary headers with the `ccsds_primary_header` crate, and the report that
//! the packet reader writes for each packet.
use crate::hexcodec::{encode_hex, hex_encode, hex_value, lemma_hex_digit_roundtrip, lower_hex_digit};
use crate::text::{decimal, decimal_chars, push_all, str_chars};
use ccsds_primary_header::primary_header::PacketType as CcsdsPacketType;
use ccsds_primary_header::primary_header::PrimaryHeader;
use vstd::prelude::*;

verus! {

// ---------------------------------------------------------------------------
// Primary header fields
// ---------------------------------------------------------------------------

/// Whether a packet carries a command or telemetry.
#[derive(Debug, Clone, Copy, PartialEq, Eq, Structural)]
pub enum PacketType {
    /// A telemetry packet (type bit 0).
    Data,
    /// A command packet (type bit 1).
    Command,
    /// A type that the header cannot encode.
    Unknown,
}

/// The big-endian 16-bit word made of bytes `i` and `i + 1` of a header.
pub open spec fn header_word(h: Seq<u8>, i: int) -> nat {
    (h[i] * 256 + h[i + 1]) as nat
}

/// The CCSDS version: the top three bits of the first word.
pub open spec fn spec_version(h: Seq<u8>) -> u16 {
    (header_word(h, 0) / 8192) as u16
}

/// The packet type bit: bit 12 of the first word.
pub open spec fn spec_packet_type(h: Seq<u8>) -> PacketType {
    if (header_word(h, 0) / 4096) % 2 == 0 {
        PacketType::Data
    } else {
        PacketType::Command
    }
}

/// The application process identifier: the low eleven bits of the first word.
pub open spec fn spec_apid(h: Seq<u8>) -> u16 {
    (header_word(h, 0) % 2048) as u16
}

/// The sequence count: the low fourteen bits of the second word.
pub open spec fn spec_sequence_count(h: Seq<u8>) -> u16 {
    (header_word(h, 2) % 16384) as u16
}

/// The packet length: the length field plus the six header bytes and one.
pub open spec fn spec_packet_length(h: Seq<u8>) -> u32 {
    (header_word(h, 4) + 7) as u32
}

/// The data length: the length field plus one.
pub open spec fn spec_data_length(h: Seq<u8>) -> u32 {
    (header_word(h, 4) + 1) as u32
}

/// Calls `ControlWord::version` on `PrimaryHeader::new(header)`: bits 13 to
/// 15 of the big-endian first word, `(word & 0xE000) >> 13`.
#[verifier::external_body]
fn header_version(header: [u8; 6]) -> (r: u16)
    ensures
        r == spec_version(header@),
{
    PrimaryHeader::new(header).control.version()
}

/// Calls `ControlWord::packet_type` on `PrimaryHeader::new(header)`: bit 12
/// of the big-endian first word, 0 for `Data` and 1 for `Command`.
#[verifier::external_body]
fn header_packet_type(header: [u8; 6]) -> (r: PacketType)
    ensures
        r == spec_packet_type(header@),
{
    match PrimaryHeader::new(header).control.packet_type() {
        CcsdsPacketType::Data => PacketType::Data,
        CcsdsPacketType::Command => PacketType::Command,
        CcsdsPacketType::Unknown => PacketType::Unknown,
    }
}

/// Calls `ControlWord::apid` on `PrimaryHeader::new(header)`: the big-endian
/// first word masked with `0x07FF`.
#[verifier::external_body]
fn header_apid(header: [u8; 6]) -> (r: u16)
    ensures
        r == spec_apid(header@),
{
    PrimaryHeader::new(header).control.apid()
}

/// Calls `SequenceWord::sequence_count` on `PrimaryHeader::new(header)`: the
/// big-endian second word masked with `0x3FFF`.
#[verifier::external_body]
fn header_sequence_count(header: [u8; 6]) -> (r: u16)
    ensures
        r == spec_sequence_count(header@),
{
    PrimaryHeader::new(header).sequence.sequence_count()
}

/// Calls `PrimaryHeader::packet_length` on `PrimaryHeader::new(header)`: the
/// big-endian third word plus 6 plus 1, as a `u32`.
#[verifier::external_body]
fn header_packet_length(header: [u8; 6]) -> (r: u32)
    ensures
        r == spec_packet_length(header@),
{
    PrimaryHeader::new(header).packet_length()
}

/// Calls `PrimaryHeader::data_length` on `PrimaryHeader::new(header)`: the
/// big-endian third word plus 1, as a `u32`.
#[verifier::external_body]
fn header_data_length(header: [u8; 6]) -> (r: u32)
    ensures
        r == spec_data_length(header@),
{
    PrimaryHeader::new(header).data_length()
}

/// The fields that the packet reader reports of a primary header.
#[derive(Debug, Clone, Copy, PartialEq, Eq, Structural)]
pub struct HeaderFields {
    pub version: u16,
    pub packet_type: PacketType,
    pub apid: u16,
    pub sequence_count: u16,
    pub packet_length: u32,
    pub data_length: u32,
}

/// The fields of the primary header made of the six bytes `h`.
pub open spec fn header_fields(h: Seq<u8>) -> HeaderFields {
    HeaderFields {
        version: spec_version(h),
        packet_type: spec_packet_type(h),
        apid: spec_apid(h),
        sequence_count: spec_sequence_count(h),
        packet_length: spec_packet_length(h),
        data_length: spec_data_length(h),
    }
}

/// Reads the fields of a primary header.
pub fn read_header(header: [u8; 6]) -> (r: HeaderFields)
    ensures
        r == header_fields(header@),
{
    HeaderFields {
        version: header_version(header),
        packet_type: header_packet_type(header),
        apid: header_apid(header),
        sequence_count: header_sequence_count(header),
        packet_length: header_packet_length(header),
        data_length: header_data_length(header),
    }
}

/// Copies up to six bytes into a header array, leaving the rest zero.
pub fn extract_header(input: &Vec<u8>) -> (r: [u8; 6])
    requires
        input.len() <= 6,
    ensures
        forall|i: int| 0 <= i < 6 ==> #[trigger] r@[i] == if i < input.len() {
            input@[i]
        } else {
            0u8
        },
{
    let mut output: [u8; 6] = [0; 6];
    let mut i: usize = 0;
    while i < input.len()
        invariant
            i <= input.len() <= 6,
            forall|k: int| 0 <= k < 6 ==> #[trigger] output@[k] == if k < i {
                input@[k]
            } else {
                0u8
            },
        decreases input.len() - i,
    {
        output[i] = input[i];
        i = i + 1;
    }
    output
}

// ---------------------------------------------------------------------------
// Splitting a byte stream into packets
// ---------------------------------------------------------------------------

/// A packet as the reader finds it: its number (from 1), its six header
/// bytes, the fields read from them, and its data bytes, absent when the
/// stream ends before them.
pub struct PacketRecord {
    pub number: usize,
    pub header: [u8; 6],
    pub fields: HeaderFields,
    pub data: Option<Vec<u8>>,
}

/// The mathematical content of a packet record.
pub struct PacketSpec {
    pub number: nat,
    pub header: Seq<u8>,
    pub fields: HeaderFields,
    pub data: Option<Seq<u8>>,
}

impl View for PacketRecord {
    type V = PacketSpec;

    open spec fn view(&self) -> PacketSpec {
        PacketSpec {
            number: self.number as nat,
            header: self.header@,
            fields: self.fields,
            data: match self.data {
                Some(d) => Some(d@),
                None => None,
            },
        }
    }
}

/// The data bytes that the reader takes after a header: the header's data
/// length, but never fewer than two, since the byte that completes the
/// header is always taken as data before the length is checked.
pub open spec fn taken_data_len(h: Seq<u8>) -> nat {
    let n = spec_data_length(h) as nat;
    if n >= 2 {
        n
    } else {
        2
    }
}

/// The packets of the stream `s`, numbered from `number` on. A header is
/// read once a seventh byte follows it; the last packet has no data when
/// the stream ends before all its data bytes.
pub open spec fn packets(s: Seq<u8>, number: nat) -> Seq<PacketSpec>
    decreases s.len(),
{
    if s.len() < 7 {
        Seq::<PacketSpec>::empty()
    } else {
        let h = s.take(6);
        let n = taken_data_len(h) as int;
        if s.len() >= 6 + n {
            seq![
                PacketSpec {
                    number,
                    header: h,
                    fields: header_fields(h),
                    data: Some(s.subrange(6, 6 + n)),
                },
            ] + packets(
                s.skip(6 + n),
                number + 1,
            )
        } else {
            seq![PacketSpec { number, header: h, fields: header_fields(h), data: None }]
        }
    }
}

/// The views of a sequence of packet records.
pub open spec fn records_view(v: Seq<PacketRecord>) -> Seq<PacketSpec> {
    v.map_values(|r: PacketRecord| r@)
}

proof fn lemma_packets_complete(s: Seq<u8>, p: int, n: int, number: nat)
    requires
        0 <= p,
        p + 6 + n <= s.len(),
        n == taken_data_len(s.subrange(p, p + 6)),
    ensures
        packets(s.skip(p), number) == seq![
            PacketSpec {
                number,
                header: s.subrange(p, p + 6),
                fields: header_fields(s.subrange(p, p + 6)),
                data: Some(s.subrange(p + 6, p + 6 + n)),
            },
        ] + packets(s.skip(p + 6 + n), number + 1),
{
    let t = s.skip(p);
    assert(t.take(6) =~= s.subrange(p, p + 6));
    assert(t.subrange(6, 6 + n) =~= s.subrange(p + 6, p + 6 + n));
    assert(t.skip(6 + n) =~= s.skip(p + 6 + n));
}

proof fn lemma_packets_short(s: Seq<u8>, p: int, number: nat)
    requires
        0 <= p <= s.len() < p + 7,
    ensures
        packets(s.skip(p), number) == Seq::<PacketSpec>::empty(),
{
}

proof fn lemma_packets_partial(s: Seq<u8>, p: int, n: int, number: nat)
    requires
        0 <= p,
        p + 7 <= s.len() < p + 6 + n,
        n == taken_data_len(s.subrange(p, p + 6)),
    ensures
        packets(s.skip(p), number) == seq![
            PacketSpec {
                number,
                header: s.subrange(p, p + 6),
                fields: header_fields(s.subrange(p, p + 6)),
                data: None,
            },
        ],
{
    assert(s.skip(p).take(6) =~= s.subrange(p, p + 6));
}

/// Splits a byte stream into CCSDS packets the way the packet reader walks
/// it: six header bytes, then the data bytes (`taken_data_len`), then the
/// next packet.
#[verifier::rlimit(60)]
pub fn split_packets(bytes: &Vec<u8>) -> (r: Vec<PacketRecord>)
    ensures
        records_view(r@) == packets(bytes@, 1),
        forall|k: int| 0 <= k < r@.len() ==> (#[trigger] r@[k]).fields == header_fields(
            r@[k].header@,
        ),
{
    let len = bytes.len();
    let mut records: Vec<PacketRecord> = Vec::new();
    let mut header: Vec<u8> = Vec::new();
    let mut packet_data: Vec<u8> = Vec::new();
    let mut header_counter: usize = 0;
    let mut data_counter: u32 = 0;
    let mut data_length: u32 = 0;
    let mut packet_num: usize = 1;
    let mut cur_header: [u8; 6] = [0; 6];
    let mut cur_fields: HeaderFields = read_header(cur_header);
    let mut cur_number: usize = 0;
    let ghost mut p: int = 0;
    assert(bytes@.skip(0) =~= bytes@);
    let mut i: usize = 0;
    while i < len
        invariant
            len == bytes.len(),
            0 <= p <= i <= len,
            header_counter <= 6 ==> packet_num <= p + 1,
            header_counter == 7 ==> packet_num <= p + 2,
            packets(bytes@, 1) == records_view(records@) + packets(
                bytes@.skip(p),
                (if header_counter == 7 {
                    cur_number
                } else {
                    packet_num
                }) as nat,
            ),
            forall|k: int|
                0 <= k < records@.len() ==> (#[trigger] records@[k]).fields == header_fields(
                    records@[k].header@,
                ),
            header_counter <= 7,
            header_counter <= 6 ==> {
                &&& i == p + header_counter
                &&& header@ == bytes@.subrange(p, i as int)
                &&& packet_data@.len() == 0
            },
            header_counter == 7 ==> {
                &&& cur_header@ == bytes@.subrange(p, p + 6)
                &&& cur_fields == header_fields(cur_header@)
                &&& cur_number + 1 == packet_num
                &&& data_length == spec_data_length(cur_header@)
                &&& 1 <= data_counter < taken_data_len(cur_header@)
                &&& i == p + 6 + data_counter
                &&& packet_data@ == bytes@.subrange(p + 6, i as int)
            },
        decreases len - i,
    {
        let b = bytes[i];
        if header_counter < 6 {
            header.push(b);
            header_counter = header_counter + 1;
            assert(header@ =~= bytes@.subrange(p, i + 1));
        } else if header_counter == 6 {
            let h = extract_header(&header);
            assert(h@ =~= bytes@.subrange(p, p + 6));
            cur_header = h;
            cur_fields = read_header(h);
            cur_number = packet_num;
            data_length = cur_fields.data_length;
            packet_data.push(b);
            assert(packet_data@ =~= bytes@.subrange(p + 6, i + 1));
            data_counter = 1;
            header_counter = 7;
            packet_num = packet_num + 1;
        } else {
            if data_counter < data_length - 1 {
                packet_data.push(b);
                assert(packet_data@ =~= bytes@.subrange(p + 6, i + 1));
                data_counter = data_counter + 1;
            } else {
                packet_data.push(b);
                let ghost n = taken_data_len(cur_header@) as int;
                assert(data_counter + 1 == n);
                proof {
                    lemma_packets_complete(bytes@, p, n, cur_number as nat);
                }
                let done = packet_data;
                assert(done@ =~= bytes@.subrange(p + 6, p + 6 + n));
                let rec = PacketRecord {
                    number: cur_number,
                    header: cur_header,
                    fields: cur_fields,
                    data: Some(done),
                };
                let ghost before = records@;
                records.push(rec);
                assert(records_view(records@) =~= records_view(before).push(rec@));
                proof {
                    p = p + 6 + n;
                }
                packet_data = Vec::new();
                header = Vec::new();
                data_counter = 0;
                header_counter = 0;
                data_length = 0;
            }
        }
        i = i + 1;
    }
    if header_counter == 7 {
        proof {
            lemma_packets_partial(bytes@, p, taken_data_len(cur_header@) as int, cur_number as nat);
        }
        let rec = PacketRecord {
            number: cur_number,
            header: cur_header,
            fields: cur_fields,
            data: None,
        };
        let ghost before = records@;
        records.push(rec);
        assert(records_view(records@) =~= records_view(before).push(rec@));
    } else {
        proof {
            lemma_packets_short(bytes@, p, packet_num as nat);
        }
        assert(records_view(records@) + Seq::<PacketSpec>::empty() =~= records_view(records@));
    }
    records
}

// ---------------------------------------------------------------------------
// Output selection and reports
// ---------------------------------------------------------------------------

/// Whether the reader writes its report to a file: the last command-line
/// argument that is `y` or `n` in either case decides, `n` when there is none.
pub open spec fn output_to_file_spec(args: Seq<Seq<char>>) -> bool
    decreases args.len(),
{
    if args.len() == 0 {
        false
    } else {
        let a = args.last();
        if a == seq!['y'] || a == seq!['Y'] {
            true
        } else if a == seq!['n'] || a == seq!['N'] {
            false
        } else {
            output_to_file_spec(args.drop_last())
        }
    }
}

/// The answer is read case-insensitively and the last one counts: after
/// any arguments, a further `y` or `Y` sends the report to the file, a
/// further `n` or `N` prints it, and any other argument leaves the choice
/// as it was. With no answer at all the report is printed.
pub proof fn lemma_last_answer_decides(args: Seq<Seq<char>>, a: Seq<char>)
    ensures
        output_to_file_spec(args.push(seq!['y'])),
        output_to_file_spec(args.push(seq!['Y'])),
        !output_to_file_spec(args.push(seq!['n'])),
        !output_to_file_spec(args.push(seq!['N'])),
        (a != seq!['y'] && a != seq!['Y'] && a != seq!['n'] && a != seq!['N'])
            ==> output_to_file_spec(args.push(a)) == output_to_file_spec(args),
        !output_to_file_spec(Seq::<Seq<char>>::empty()),
{
    assert(args.push(a).drop_last() =~= args);
    assert(seq!['n'] != seq!['y'] && seq!['n'] != seq!['Y']) by {
        assert(seq!['n'][0] != seq!['y'][0] && seq!['n'][0] != seq!['Y'][0]);
    }
    assert(seq!['N'] != seq!['y'] && seq!['N'] != seq!['Y']) by {
        assert(seq!['N'][0] != seq!['y'][0] && seq!['N'][0] != seq!['Y'][0]);
    }
}

fn is_letter_arg(a: &Vec<char>, lower: char, upper: char) -> (b: bool)
    ensures
        b == (a@ == seq![lower] || a@ == seq![upper]),
{
    let r = a.len() == 1 && (a[0] == lower || a[0] == upper);
    assert(r ==> (a@ =~= seq![a@[0]]));
    r
}

/// Chooses between writing the report to a file and printing it, from the
/// command-line arguments.
pub fn output_to_file(args: &Vec<Vec<char>>) -> (b: bool)
    ensures
        b == output_to_file_spec(args.deep_view()),
{
    let mut out = false;
    let mut i: usize = 0;
    assert(args.deep_view().take(0) =~= Seq::<Seq<char>>::empty());
    while i < args.len()
        invariant
            i <= args.len(),
            out == output_to_file_spec(args.deep_view().take(i as int)),
        decreases args.len() - i,
    {
        let ghost t = args.deep_view().take(i + 1);
        assert(t.drop_last() =~= args.deep_view().take(i as int));
        assert(t.last() == args@[i as int]@);
        if is_letter_arg(&args[i], 'y', 'Y') {
            out = true;
        } else if is_letter_arg(&args[i], 'n', 'N') {
            out = false;
        }
        i = i + 1;
    }
    assert(args.deep_view().take(args.len() as int) =~= args.deep_view());
    out
}

/// The name the reader gives a packet type.
pub open spec fn packet_type_text(t: PacketType) -> Seq<char> {
    match t {
        PacketType::Command => "Command"@,
        PacketType::Data => "Telemtry"@,
        PacketType::Unknown => "Error , unknown packet type."@,
    }
}

/// The report lines for a packet's header, each ending in a line feed.
pub open spec fn header_report_spec(number: nat, f: HeaderFields) -> Seq<char> {
    "Packet ID: "@ + decimal(number) + "\n"@ + "Version: "@ + decimal(f.version as nat) + "\n"@
        + "APID: "@ + decimal(f.apid as nat) + "\n"@ + "Packet type: "@ + packet_type_text(
        f.packet_type,
    ) + "\n"@ + "Source sequence count: "@ + decimal(f.sequence_count as nat) + "\n"@
        + "Packet Length: "@ + decimal(f.packet_length as nat) + "\n"@ + "Data Length: "@
        + decimal(f.data_length as nat) + "\n"@
}

fn push_str(out: &mut Vec<char>, s: &str)
    ensures
        final(out)@ == old(out)@ + s@,
{
    let c = str_chars(s);
    push_all(out, &c);
}

fn push_decimal(out: &mut Vec<char>, n: u64)
    ensures
        final(out)@ == old(out)@ + decimal(n as nat),
{
    let c = decimal_chars(n);
    push_all(out, &c);
}

/// The report of a packet's header, as the reader prints or writes it.
pub fn header_report(number: usize, f: &HeaderFields) -> (r: Vec<char>)
    ensures
        r@ == header_report_spec(number as nat, *f),
{
    let mut out: Vec<char> = Vec::new();
    push_str(&mut out, "Packet ID: ");
    push_decimal(&mut out, number as u64);
    push_str(&mut out, "\n");
    push_str(&mut out, "Version: ");
    push_decimal(&mut out, f.version as u64);
    push_str(&mut out, "\n");
    push_str(&mut out, "APID: ");
    push_decimal(&mut out, f.apid as u64);
    push_str(&mut out, "\n");
    push_str(&mut out, "Packet type: ");
    match f.packet_type {
        PacketType::Command => push_str(&mut out, "Command"),
        PacketType::Data => push_str(&mut out, "Telemtry"),
        PacketType::Unknown => push_str(&mut out, "Error , unknown packet type."),
    }
    push_str(&mut out, "\n");
    push_str(&mut out, "Source sequence count: ");
    push_decimal(&mut out, f.sequence_count as u64);
    push_str(&mut out, "\n");
    push_str(&mut out, "Packet Length: ");
    push_decimal(&mut out, f.packet_length as u64);
    push_str(&mut out, "\n");
    push_str(&mut out, "Data Length: ");
    push_decimal(&mut out, f.data_length as u64);
    push_str(&mut out, "\n");
    assert(out@ =~= header_report_spec(number as nat, *f));
    out
}

/// The data line that the reader writes to its report file.
pub open spec fn data_line_file_spec(data: Seq<u8>) -> Seq<char> {
    "Data: "@ + hex_encode(data) + "\n"@
}

/// The data line of the report file: the bytes in lowercase hex.
pub fn data_line_file(data: &Vec<u8>) -> (r: Vec<char>)
    ensures
        r@ == data_line_file_spec(data@),
{
    let mut out: Vec<char> = Vec::new();
    push_str(&mut out, "Data: ");
    let h = encode_hex(data);
    push_all(&mut out, &h);
    push_str(&mut out, "\n");
    out
}

/// A byte in lowercase hex without leading zeros, as `{:x}` writes it.
pub open spec fn byte_lower_hex(b: u8) -> Seq<char> {
    if b < 16 {
        seq![lower_hex_digit(b as int)]
    } else {
        seq![lower_hex_digit((b / 16) as int), lower_hex_digit((b % 16) as int)]
    }
}

/// The list `[b0, b1, ...]` of the bytes in lowercase hex, as `{:x?}`
/// writes a byte vector.
pub open spec fn byte_list_lower_hex(data: Seq<u8>) -> Seq<char> {
    "["@ + byte_list_items(data) + "]"@
}

/// The items of a `{:x?}` byte list, separated by a comma and a space.
pub open spec fn byte_list_items(data: Seq<u8>) -> Seq<char>
    decreases data.len(),
{
    if data.len() == 0 {
        Seq::<char>::empty()
    } else if data.len() == 1 {
        byte_lower_hex(data[0])
    } else {
        byte_list_items(data.drop_last()) + ", "@ + byte_lower_hex(data.last())
    }
}

/// Each byte of the printed data list reads back as that byte: one hex
/// digit for a byte under 16, otherwise two lowercase digits, high digit
/// first and not `0`.
pub proof fn lemma_byte_lower_hex_reads_back(b: u8)
    ensures
        b < 16 ==> byte_lower_hex(b).len() == 1 && hex_value(byte_lower_hex(b)[0] as u8) == Some(
            b,
        ),
        b >= 16 ==> {
            let t = byte_lower_hex(b);
            &&& t.len() == 2
            &&& t[0] != '0'
            &&& hex_value(t[0] as u8) matches Some(h) && hex_value(t[1] as u8) matches Some(l)
                && 16 * h + l == b
        },
        forall|i: int|
            0 <= i < byte_lower_hex(b).len() ==> !(65 <= (#[trigger] byte_lower_hex(b)[i]) as u32
                <= 70),
{
    lemma_hex_digit_roundtrip(b as int % 16);
    lemma_hex_digit_roundtrip(b as int / 16);
    if b < 16 {
        assert(b as int % 16 == b);
    }
}

/// The data line that the reader prints, ending in a line feed.
pub open spec fn data_line_terminal_spec(data: Seq<u8>) -> Seq<char> {
    "Data: "@ + byte_list_lower_hex(data) + "\n"@
}

fn hex_digit_char(n: u8) -> (c: char)
    requires
        n < 16,
    ensures
        c == lower_hex_digit(n as int),
{
    if n < 10 {
        (n + 48) as char
    } else {
        (n + 87) as char
    }
}

fn push_byte_lower_hex(out: &mut Vec<char>, b: u8)
    ensures
        final(out)@ == old(out)@ + byte_lower_hex(b),
{
    if b < 16 {
        out.push(hex_digit_char(b));
    } else {
        out.push(hex_digit_char(b / 16));
        out.push(hex_digit_char(b % 16));
    }
    assert(out@ =~= old(out)@ + byte_lower_hex(b));
}

/// The data line that the reader prints: the bytes as a `{:x?}` list.
pub fn data_line_terminal(data: &Vec<u8>) -> (r: Vec<char>)
    ensures
        r@ == data_line_terminal_spec(data@),
{
    let mut items: Vec<char> = Vec::new();
    let mut i: usize = 0;
    assert(data@.take(0) =~= Seq::<u8>::empty());
    while i < data.len()
        invariant
            i <= data.len(),
            items@ == byte_list_items(data@.take(i as int)),
        decreases data.len() - i,
    {
        let ghost t = data@.take(i + 1);
        assert(t.drop_last() =~= data@.take(i as int));
        if i > 0 {
            push_str(&mut items, ", ");
        } else {
            assert(t =~= seq![data@[0]]);
        }
        push_byte_lower_hex(&mut items, data[i]);
        i = i + 1;
    }
    assert(data@.take(data.len() as int) =~= data@);
    let mut out: Vec<char> = Vec::new();
    push_str(&mut out, "Data: ");
    push_str(&mut out, "[");
    push_all(&mut out, &items);
    push_str(&mut out, "]");
    push_str(&mut out, "\n");
    assert(out@ =~= data_line_terminal_spec(data@));
    out
}

// ---------------------------------------------------------------------------
// Laws
// ---------------------------------------------------------------------------

/// The data length of a header is the packet length less the six header
/// bytes.
pub proof fn lemma_data_length_is_packet_length_less_header(h: Seq<u8>)
    requires
        h.len() == 6,
    ensures
        spec_data_length(h) + 6 == spec_packet_length(h),
{
}

/// The packets tile the stream: each complete packet's header and data,
/// laid end to end, are the stream from its start.
pub open spec fn packet_bytes(ps: Seq<PacketSpec>) -> Seq<u8>
    decreases ps.len(),
{
    if ps.len() == 0 {
        Seq::<u8>::empty()
    } else {
        let p = ps[0];
        p.header + match p.data {
            Some(d) => d,
            None => Seq::<u8>::empty(),
        } + packet_bytes(ps.drop_first())
    }
}

/// Splitting loses and reorders nothing: the packets' bytes laid end to end
/// are a prefix of the stream, and every complete packet holds exactly
/// `taken_data_len` data bytes.
pub proof fn lemma_packets_tile_stream(s: Seq<u8>, number: nat)
    ensures
        packet_bytes(packets(s, number)).is_prefix_of(s),
        forall|k: int|
            0 <= k < packets(s, number).len() ==> (#[trigger] packets(s, number)[k]).header.len()
                == 6 && match packets(s, number)[k].data {
                Some(d) => d.len() == taken_data_len(packets(s, number)[k].header),
                None => true,
            },
        forall|k: int|
            0 <= k < packets(s, number).len() ==> (#[trigger] packets(s, number)[k]).number
                == number + k,
    decreases s.len(),
{
    let ps = packets(s, number);
    if s.len() >= 7 {
        let h = s.take(6);
        let n = taken_data_len(h) as int;
        if s.len() >= 6 + n {
            let rest = s.skip(6 + n);
            lemma_packets_tile_stream(rest, number + 1);
            let first = PacketSpec {
                number,
                header: h,
                fields: header_fields(h),
                data: Some(s.subrange(6, 6 + n)),
            };
            assert(ps.drop_first() =~= packets(rest, number + 1));
            assert(ps[0] == first);
            let pb = packet_bytes(ps);
            let rb = packet_bytes(packets(rest, number + 1));
            assert(pb == h + s.subrange(6, 6 + n) + rb);
            assert forall|i: int| 0 <= i < pb.len() implies pb[i] == s[i] by {
                if i >= 6 + n {
                    assert(pb[i] == rb[i - 6 - n]);
                    assert(rest[i - 6 - n] == s[i]);
                }
            }
            assert forall|k: int| 1 <= k < ps.len() implies #[trigger] ps[k] == packets(
                rest,
                number + 1,
            )[k - 1] by {}
        } else {
            assert(packet_bytes(ps.drop_first()) =~= Seq::<u8>::empty()) by {
                assert(ps.drop_first() =~= Seq::<PacketSpec>::empty());
            }
        }
    }
}

} // verus!
