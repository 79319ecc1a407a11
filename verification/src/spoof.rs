//! Building a CCSDS packet from user-given header fields and raw data, and
//! the text that the packet builder writes: the header and data octets in
//! hex, each preceded by a space.
use crate::ccsds::{
    header_word, spec_apid, spec_data_length, spec_packet_type, spec_sequence_count,
    spec_version, PacketType,
};
use crate::hexcodec::{
    hex_encode, lemma_hex_encode_push, lemma_simple_hex_chars, lemma_simple_hex_without_spaces,
    lower_hex_digit, simple_hex, simple_hex_dump, to_hex,
};
use crate::text::{
    lemma_remove_absent_char, parse_unsigned, parse_unsigned_chars, remove_char,
    remove_char_chars, trim, trim_chars, IntErrorKind,
};
use vstd::prelude::*;
use vstd::utf8::encode_utf8;

verus! {

// ---------------------------------------------------------------------------
// User input
// ---------------------------------------------------------------------------

/// What a header field typed by the user reads as: the line, trimmed,
/// parsed as a `u16`.
pub open spec fn field_value(line: Seq<char>) -> Result<nat, IntErrorKind> {
    parse_unsigned(trim(line), 65535)
}

/// Reads a header field from a line of user input (`line.trim().parse::<u16>()`).
pub fn parse_field(line: &Vec<char>) -> (r: Result<u16, IntErrorKind>)
    ensures
        match r {
            Ok(v) => field_value(line@) == Ok::<nat, IntErrorKind>(v as nat),
            Err(e) => field_value(line@) == Err::<nat, IntErrorKind>(e),
        },
{
    let t = trim_chars(line);
    match parse_unsigned_chars(&t, 65535) {
        Ok(v) => Ok(v as u16),
        Err(e) => Err(e),
    }
}

/// The packet type bit for the user's answer: 0 when the answer, without
/// its line feeds, is exactly `telemtry`, and 1 otherwise.
pub open spec fn type_bit_spec(answer: Seq<char>) -> u16 {
    if remove_char(answer, '\n') == "telemtry"@ {
        0
    } else {
        1
    }
}

/// The packet type bit is 0 or 1; it is 0 exactly when the answer, line
/// feeds aside, is the word `telemtry` (lowercase, as the prompt expects),
/// so a line feed more or less never changes it.
pub proof fn lemma_type_bit_answer(answer: Seq<char>)
    ensures
        type_bit_spec(answer) <= 1,
        (type_bit_spec(answer) == 0) <==> (remove_char(answer, '\n') == seq![
            't',
            'e',
            'l',
            'e',
            'm',
            't',
            'r',
            'y',
        ]),
        type_bit_spec(answer.push('\n')) == type_bit_spec(answer),
        type_bit_spec(seq!['\n'] + answer) == type_bit_spec(answer),
{
    reveal_strlit("telemtry");
    assert(seq!['t', 'e', 'l', 'e', 'm', 't', 'r', 'y'] =~= "telemtry"@);
    reveal_with_fuel(Seq::filter, 1);
    assert(answer.push('\n').drop_last() =~= answer);
    assert(remove_char(answer.push('\n'), '\n') =~= remove_char(answer, '\n'));
    lemma_remove_leading_char(answer, '\n');
}

proof fn lemma_remove_leading_char(a: Seq<char>, c: char)
    ensures
        remove_char(seq![c] + a, c) == remove_char(a, c),
    decreases a.len(),
{
    reveal_with_fuel(Seq::filter, 2);
    if a.len() == 0 {
        assert(seq![c] + a =~= seq![c]);
        assert(remove_char(a, c) =~= Seq::<char>::empty());
        assert(seq![c].drop_last() =~= Seq::<char>::empty());
    } else {
        lemma_remove_leading_char(a.drop_last(), c);
        assert((seq![c] + a).drop_last() =~= seq![c] + a.drop_last());
        assert((seq![c] + a).last() == a.last());
    }
}

/// The packet type bit for the user's answer to the packet type question.
pub fn packet_type_bit(answer: &Vec<char>) -> (r: u16)
    ensures
        r == type_bit_spec(answer@),
{
    let a = remove_char_chars(answer, '\n');
    let t = crate::text::str_chars("telemtry");
    if crate::text::chars_eq(&a, &t) {
        0
    } else {
        1
    }
}

// ---------------------------------------------------------------------------
// The primary header
// ---------------------------------------------------------------------------

/// The first header word: version in bits 13 to 15, type bit in bit 12,
/// APID in the low bits. Fields are or-ed in without masking; the field
/// checks keep each within its bits.
pub open spec fn word1(version: u16, type_bit: u16, apid: u16) -> u16 {
    (type_bit << 12u16) | (apid | (version << 13u16))
}

/// The length word: the number of data bytes, truncated to 16 bits (the
/// field checks keep it within them).
pub open spec fn word3(data_len: nat) -> u16 {
    (data_len % 65536) as u16
}

/// The three header words packed into the low 48 bits of a `u64`.
pub open spec fn header_u64(w1: u16, w2: u16, w3: u16) -> u64 {
    ((w1 as u64) << 32u64) | ((w2 as u64) << 16u64) | (w3 as u64)
}

/// The eight big-endian bytes of a `u64` (`u64::to_be_bytes`).
pub open spec fn be_bytes(x: u64) -> Seq<u8> {
    Seq::new(8, |k: int| ((x >> (8 * (7 - k)) as u64) % 256) as u8)
}

/// The six header bytes: the three words, big-endian.
pub open spec fn header_bytes(w1: u16, w2: u16, w3: u16) -> Seq<u8> {
    seq![
        (w1 / 256) as u8,
        (w1 % 256) as u8,
        (w2 / 256) as u8,
        (w2 % 256) as u8,
        (w3 / 256) as u8,
        (w3 % 256) as u8,
    ]
}

/// A header field that is too large for its bits.
#[derive(Debug, Clone, Copy, PartialEq, Eq, Structural)]
pub enum FieldError {
    /// The version number is over 7 (three bits).
    Version,
    /// The packet type bit is over 1.
    PacketType,
    /// The APID is over 2047 (eleven bits).
    Apid,
    /// The sequence count is over 16383 (fourteen bits).
    SequenceCount,
    /// There are more than 65535 data bytes (sixteen bits).
    DataLength,
}

/// The first field, in header order, that is too large for its bits, or
/// `None` when all fit.
pub open spec fn field_check_spec(
    version: u16,
    type_bit: u16,
    apid: u16,
    seq_count: u16,
    data_len: nat,
) -> Option<FieldError> {
    if version > 7 {
        Some(FieldError::Version)
    } else if type_bit > 1 {
        Some(FieldError::PacketType)
    } else if apid > 2047 {
        Some(FieldError::Apid)
    } else if seq_count > 16383 {
        Some(FieldError::SequenceCount)
    } else if data_len > 65535 {
        Some(FieldError::DataLength)
    } else {
        None
    }
}

/// The field checks pass exactly when every field fits its bits in the
/// header (version in 3 bits, type in 1, APID in 11, sequence count in 14,
/// data length in 16), and a refused field is one that does not fit, with
/// every field before it in the header fitting.
pub proof fn lemma_field_check_bits(
    version: u16,
    type_bit: u16,
    apid: u16,
    seq_count: u16,
    data_len: nat,
)
    ensures
        (field_check_spec(version, type_bit, apid, seq_count, data_len) is None) <==> (version
            < 8 && type_bit < 2 && apid < 2048 && seq_count < 16384 && data_len < 65536),
        field_check_spec(version, type_bit, apid, seq_count, data_len) == Some(FieldError::Version)
            <==> version >= 8,
        field_check_spec(version, type_bit, apid, seq_count, data_len) == Some(
            FieldError::PacketType,
        ) <==> (version < 8 && type_bit >= 2),
        field_check_spec(version, type_bit, apid, seq_count, data_len) == Some(FieldError::Apid)
            <==> (version < 8 && type_bit < 2 && apid >= 2048),
        field_check_spec(version, type_bit, apid, seq_count, data_len) == Some(
            FieldError::SequenceCount,
        ) <==> (version < 8 && type_bit < 2 && apid < 2048 && seq_count >= 16384),
        field_check_spec(version, type_bit, apid, seq_count, data_len) == Some(
            FieldError::DataLength,
        ) <==> (version < 8 && type_bit < 2 && apid < 2048 && seq_count < 16384 && data_len
            >= 65536),
{
}

/// Checks that each header field fits its bits.
pub fn check_fields(version: u16, type_bit: u16, apid: u16, seq_count: u16, data_len: usize) -> (r:
    Option<FieldError>)
    ensures
        r == field_check_spec(version, type_bit, apid, seq_count, data_len as nat),
{
    if version > 7 {
        Some(FieldError::Version)
    } else if type_bit > 1 {
        Some(FieldError::PacketType)
    } else if apid > 2047 {
        Some(FieldError::Apid)
    } else if seq_count > 16383 {
        Some(FieldError::SequenceCount)
    } else if data_len > 65535 {
        Some(FieldError::DataLength)
    } else {
        None
    }
}

/// The packed primary header of a spoofed packet, as a `u64`.
pub fn primary_header_u64(version: u16, type_bit: u16, apid: u16, seq_count: u16, data_len: usize)
    -> (r: u64)
    ensures
        r == header_u64(word1(version, type_bit, apid), seq_count, word3(data_len as nat)),
{
    let secondary_flag: u16 = 0;
    let mut w1: u16 = 0;
    let mut w2: u16 = 0;
    w1 = w1 | (version << 13u16);
    w1 = apid | w1;
    w1 = (secondary_flag << 11u16) | w1;
    w1 = (type_bit << 12u16) | w1;
    w2 = seq_count | w2;
    w2 = (secondary_flag << 15u16) | w2;
    let w3: u16 = (data_len % 65536) as u16;
    assert(w1 == word1(version, type_bit, apid)) by (bit_vector)
        requires
            w1 == (type_bit << 12u16) | ((0u16 << 11u16) | (apid | (0u16 | (version << 13u16)))),
    ;
    assert(w2 == seq_count) by (bit_vector)
        requires
            w2 == (0u16 << 15u16) | (seq_count | 0u16),
    ;
    ((w1 as u64) << 32u64) | ((w2 as u64) << 16u64) | (w3 as u64)
}

/// The big-endian bytes of a `u64`.
pub fn u64_be_bytes(x: u64) -> (r: Vec<u8>)
    ensures
        r@ == be_bytes(x),
{
    let mut r: Vec<u8> = Vec::new();
    let mut k: u64 = 0;
    while k < 8
        invariant
            k <= 8,
            r@ == be_bytes(x).take(k as int),
        decreases 8 - k,
    {
        let b = ((x >> (8 * (7 - k))) % 256) as u8;
        r.push(b);
        k = k + 1;
        assert(r@ =~= be_bytes(x).take(k as int));
    }
    assert(be_bytes(x).take(8) =~= be_bytes(x));
    r
}

proof fn lemma_header_u64_bytes(w1: u16, w2: u16, w3: u16)
    ensures
        be_bytes(header_u64(w1, w2, w3)) == seq![0u8, 0u8] + header_bytes(w1, w2, w3),
{
    let x = header_u64(w1, w2, w3);
    assert(((x >> 56u64) % 256) as u8 == 0u8 && ((x >> 48u64) % 256) as u8 == 0u8
        && ((x >> 40u64) % 256) as u8 == (w1 / 256) as u8 && ((x >> 32u64) % 256) as u8 == (w1
        % 256) as u8 && ((x >> 24u64) % 256) as u8 == (w2 / 256) as u8 && ((x >> 16u64) % 256)
        as u8 == (w2 % 256) as u8 && ((x >> 8u64) % 256) as u8 == (w3 / 256) as u8 && ((x
        >> 0u64) % 256) as u8 == (w3 % 256) as u8) by (bit_vector)
        requires
            x == ((w1 as u64) << 32u64) | ((w2 as u64) << 16u64) | (w3 as u64),
    ;
    assert(be_bytes(x) =~= seq![0u8, 0u8] + header_bytes(w1, w2, w3));
}

// ---------------------------------------------------------------------------
// Octets
// ---------------------------------------------------------------------------

/// The length in bytes of the UTF-8 encoding of `s`.
pub open spec fn utf8_len(s: Seq<char>) -> nat {
    encode_utf8(s).len()
}

/// The pairs of characters of `s`, in order; a last single character is left
/// out.
pub open spec fn char_pairs(s: Seq<char>) -> Seq<Seq<char>> {
    Seq::new(s.len() / 2, |k: int| s.subrange(2 * k, 2 * k + 2))
}

/// What `string_to_octets` returns: one empty string when the text has an
/// odd number of UTF-8 bytes, and its pairs of characters otherwise.
pub open spec fn octets_spec(s: Seq<char>) -> Seq<Seq<char>> {
    if utf8_len(s) % 2 != 0 {
        seq![Seq::<char>::empty()]
    } else {
        char_pairs(s)
    }
}

fn char_utf8_width_is_odd(c: char) -> (b: bool)
    ensures
        b == (vstd::utf8::encode_scalar(c as u32).len() % 2 == 1),
{
    let v = c as u32;
    v <= 0x7F || (v > 0x7FF && v <= 0xFFFF)
}

proof fn lemma_char_pairs_extend(s: Seq<char>, i: int)
    requires
        0 <= i < s.len(),
    ensures
        i % 2 == 0 ==> char_pairs(s.take(i + 1)) == char_pairs(s.take(i)),
        i % 2 == 1 ==> char_pairs(s.take(i + 1)) == char_pairs(s.take(i)).push(
            s.subrange(i - 1, i + 1),
        ),
{
    let a = char_pairs(s.take(i + 1));
    let b = char_pairs(s.take(i));
    assert forall|k: int| 0 <= k < b.len() implies #[trigger] a[k] == b[k] by {
        assert(a[k] =~= b[k]);
    }
    if i % 2 == 0 {
        assert(a =~= b);
    } else {
        assert(a[b.len() as int] =~= s.subrange(i - 1, i + 1));
        assert(a =~= b.push(s.subrange(i - 1, i + 1)));
    }
}

/// Splits text into octets of two characters.
pub fn string_to_octets(input: &Vec<char>) -> (r: Vec<Vec<char>>)
    ensures
        r.deep_view() == octets_spec(input@),
{
    let n = input.len();
    let mut odd = false;
    let mut j: usize = n;
    assert(input@.skip(n as int) =~= Seq::<char>::empty());
    while j > 0
        invariant
            j <= n == input.len(),
            odd == (utf8_len(input@.skip(j as int)) % 2 == 1),
        decreases j,
    {
        let w = char_utf8_width_is_odd(input[j - 1]);
        proof {
            let t = input@.skip(j - 1);
            assert(t.drop_first() =~= input@.skip(j as int));
            assert(t[0] == input@[j - 1]);
        }
        odd = odd != w;
        j = j - 1;
    }
    assert(input@.skip(0) =~= input@);
    let mut output: Vec<Vec<char>> = Vec::new();
    if odd {
        let e: Vec<char> = Vec::new();
        proof {
            crate::text::lemma_chars_deep_view(e);
        }
        output.push(e);
        assert(output.deep_view() =~= seq![Seq::<char>::empty()]);
        return output;
    }
    let mut octet: Vec<char> = Vec::new();
    let mut i: usize = 0;
    while i < n
        invariant
            i <= n == input.len(),
            output.deep_view() == char_pairs(input@.take(i as int)),
            octet@ == if i % 2 == 1 {
                seq![input@[i - 1]]
            } else {
                Seq::<char>::empty()
            },
        decreases n - i,
    {
        let c = input[i];
        proof {
            lemma_char_pairs_extend(input@, i as int);
        }
        if i % 2 == 0 {
            octet.push(c);
        } else {
            octet.push(c);
            let done = octet;
            let ghost before = output.deep_view();
            proof {
                crate::text::lemma_chars_deep_view(done);
            }
            output.push(done);
            octet = Vec::new();
            assert(output.deep_view() =~= before.push(done@));
            assert(done@ =~= input@.subrange(i - 1, i + 1));
        }
        i = i + 1;
    }
    assert(input@.take(n as int) =~= input@);
    output
}

/// The octets, each preceded by a space, laid end to end.
pub open spec fn spaced_octets(os: Seq<Seq<char>>) -> Seq<char>
    decreases os.len(),
{
    if os.len() == 0 {
        Seq::<char>::empty()
    } else {
        spaced_octets(os.drop_last()) + seq![' '] + os.last()
    }
}

/// The characters of `t` with a space before each one at an even position.
pub open spec fn space_even_positions(t: Seq<char>) -> Seq<char>
    decreases t.len(),
{
    if t.len() == 0 {
        Seq::<char>::empty()
    } else if (t.len() - 1) % 2 == 0 {
        space_even_positions(t.drop_last()) + seq![' ', t.last()]
    } else {
        space_even_positions(t.drop_last()) + seq![t.last()]
    }
}

/// The text that the packet builder writes for the header fields and data.
pub open spec fn spoof_output(
    version: u16,
    type_bit: u16,
    apid: u16,
    seq_count: u16,
    data: Seq<u8>,
) -> Seq<char> {
    let x = header_u64(word1(version, type_bit, apid), seq_count, word3(data.len()));
    let header_octets = octets_spec(hex_encode(be_bytes(x))).skip(2);
    let dump = remove_char(
        remove_char(remove_char(simple_hex_dump(data), '\n'), '\r'),
        ' ',
    );
    spaced_octets(header_octets) + space_even_positions(dump)
}

fn spaced_octets_of(os: &Vec<Vec<char>>, from: usize) -> (r: Vec<char>)
    requires
        from <= os.len(),
    ensures
        r@ == spaced_octets(os.deep_view().skip(from as int)),
{
    let mut r: Vec<char> = Vec::new();
    let mut k: usize = from;
    assert(os.deep_view().skip(from as int).take(0) =~= Seq::<Seq<char>>::empty());
    while k < os.len()
        invariant
            from <= k <= os.len(),
            r@ == spaced_octets(os.deep_view().skip(from as int).take(k - from)),
        decreases os.len() - k,
    {
        let ghost t = os.deep_view().skip(from as int).take(k + 1 - from);
        assert(t.drop_last() =~= os.deep_view().skip(from as int).take(k - from));
        assert(t.last() == os@[k as int]@);
        r.push(' ');
        crate::text::push_all(&mut r, &os[k]);
        k = k + 1;
        assert(r@ =~= spaced_octets(t));
    }
    assert(os.deep_view().skip(from as int).take(os.len() - from) =~= os.deep_view().skip(
        from as int,
    ));
    r
}

fn space_even_positions_of(t: &Vec<char>) -> (r: Vec<char>)
    ensures
        r@ == space_even_positions(t@),
{
    let mut r: Vec<char> = Vec::new();
    let mut i: usize = 0;
    assert(t@.take(0) =~= Seq::<char>::empty());
    while i < t.len()
        invariant
            i <= t.len(),
            r@ == space_even_positions(t@.take(i as int)),
        decreases t.len() - i,
    {
        let ghost s = t@.take(i + 1);
        assert(s.drop_last() =~= t@.take(i as int));
        if i % 2 == 0 {
            r.push(' ');
            r.push(t[i]);
        } else {
            r.push(t[i]);
        }
        i = i + 1;
        assert(r@ =~= space_even_positions(s));
    }
    assert(t@.take(t.len() as int) =~= t@);
    r
}

/// The text that the packet builder writes: the six header bytes and then
/// the data, as hex octets each preceded by a space. A field too large for
/// its bits is refused.
pub fn spoof_packet_text(
    version: u16,
    type_bit: u16,
    apid: u16,
    seq_count: u16,
    data: &Vec<u8>,
) -> (r: Result<Vec<char>, FieldError>)
    ensures
        match r {
            Ok(t) => field_check_spec(version, type_bit, apid, seq_count, data@.len()) is None
                && t@ == spoof_output(version, type_bit, apid, seq_count, data@),
            Err(e) => field_check_spec(version, type_bit, apid, seq_count, data@.len()) == Some(e),
        },
{
    if let Some(e) = check_fields(version, type_bit, apid, seq_count, data.len()) {
        return Err(e);
    }
    let x = primary_header_u64(version, type_bit, apid, seq_count, data.len());
    let bytes = u64_be_bytes(x);
    let hex = to_hex(bytes.as_slice());
    let octets = string_to_octets(&hex);
    proof {
        lemma_header_u64_bytes(
            word1(version, type_bit, apid),
            seq_count,
            word3(data.len() as nat),
        );
        assert forall|i: int| 0 <= i < hex@.len() implies (#[trigger] hex@[i] as u32) < 128 by {
            let d = if i % 2 == 0 {
                bytes@[i / 2] / 16
            } else {
                bytes@[i / 2] % 16
            } as int;
            assert(hex@[i] == lower_hex_digit(d));
        }
        lemma_hex_utf8_len_even(hex@);
    }
    assert(octets@.len() == octets.deep_view().len());
    let header_text = spaced_octets_of(&octets, 2);
    let dump = simple_hex(data);
    let d1 = remove_char_chars(&dump, '\n');
    let d2 = remove_char_chars(&d1, '\r');
    let d3 = remove_char_chars(&d2, ' ');
    let data_text = space_even_positions_of(&d3);
    let mut out = header_text;
    crate::text::push_all(&mut out, &data_text);
    Ok(out)
}

proof fn lemma_hex_utf8_len_even(h: Seq<char>)
    requires
        h.len() == 16,
        forall|i: int| 0 <= i < h.len() ==> (#[trigger] h[i] as u32) < 128,
    ensures
        utf8_len(h) % 2 == 0,
{
    lemma_ascii_utf8_len(h);
}

proof fn lemma_ascii_utf8_len(h: Seq<char>)
    requires
        forall|i: int| 0 <= i < h.len() ==> (#[trigger] h[i] as u32) < 128,
    ensures
        utf8_len(h) == h.len(),
    decreases h.len(),
{
    if h.len() > 0 {
        assert forall|i: int| 0 <= i < h.drop_first().len() implies (#[trigger] h.drop_first()[i]
            as u32) < 128 by {
            assert(h.drop_first()[i] == h[i + 1]);
        }
        lemma_ascii_utf8_len(h.drop_first());
        assert((h[0] as u32) < 128);
    }
}

// ---------------------------------------------------------------------------
// Laws
// ---------------------------------------------------------------------------

/// Each byte as a space and two lowercase hex digits, laid end to end.
pub open spec fn spaced_hex(b: Seq<u8>) -> Seq<char>
    decreases b.len(),
{
    if b.len() == 0 {
        Seq::<char>::empty()
    } else {
        spaced_hex(b.drop_last()) + seq![' '] + hex_encode(seq![b.last()])
    }
}

proof fn lemma_spaced_hex_append(a: Seq<u8>, b: Seq<u8>)
    ensures
        spaced_hex(a + b) == spaced_hex(a) + spaced_hex(b),
    decreases b.len(),
{
    if b.len() == 0 {
        assert(a + b =~= a);
        assert(spaced_hex(a) + spaced_hex(b) =~= spaced_hex(a));
    } else {
        lemma_spaced_hex_append(a, b.drop_last());
        assert((a + b).drop_last() =~= a + b.drop_last());
        assert((a + b).last() == b.last());
    }
}

proof fn lemma_hex_encode_len(b: Seq<u8>)
    ensures
        hex_encode(b).len() == 2 * b.len(),
        forall|i: int| 0 <= i < hex_encode(b).len() ==> (#[trigger] hex_encode(b)[i] as u32) < 128,
{
    assert forall|i: int| 0 <= i < hex_encode(b).len() implies (#[trigger] hex_encode(b)[i] as u32)
        < 128 by {
        let d = if i % 2 == 0 {
            b[i / 2] / 16
        } else {
            b[i / 2] % 16
        } as int;
        assert(hex_encode(b)[i] == lower_hex_digit(d));
    }
}

proof fn lemma_pairs_of_hex(b: Seq<u8>)
    ensures
        spaced_octets(char_pairs(hex_encode(b))) == spaced_hex(b),
    decreases b.len(),
{
    if b.len() == 0 {
        assert(char_pairs(hex_encode(b)) =~= Seq::<Seq<char>>::empty());
    } else {
        let p = b.drop_last();
        lemma_pairs_of_hex(p);
        lemma_hex_encode_push(b);
        let e = hex_encode(seq![b.last()]);
        let ps = char_pairs(hex_encode(b));
        lemma_hex_encode_len(b);
        lemma_hex_encode_len(p);
        let q = char_pairs(hex_encode(p));
        assert forall|k: int| 0 <= k < q.len() implies #[trigger] ps.drop_last()[k] == q[k] by {
            assert(ps.drop_last()[k] =~= q[k]);
        }
        assert(ps.drop_last() =~= q);
        assert(ps.last() =~= e);
    }
}

proof fn lemma_space_even_of_hex(b: Seq<u8>)
    ensures
        space_even_positions(hex_encode(b)) == spaced_hex(b),
    decreases b.len(),
{
    if b.len() == 0 {
        assert(hex_encode(b) =~= Seq::<char>::empty());
    } else {
        let p = b.drop_last();
        lemma_space_even_of_hex(p);
        lemma_hex_encode_push(b);
        let t = hex_encode(p);
        let e = hex_encode(seq![b.last()]);
        let u = t + e;
        lemma_hex_encode_len(p);
        lemma_hex_encode_len(seq![b.last()]);
        assert(u.len() == t.len() + 2);
        assert(u.last() == e[1]);
        assert(u.drop_last() =~= t.push(e[0]));
        assert(u.drop_last().last() == e[0]);
        let v = u.drop_last();
        assert(v.drop_last() =~= t);
        assert((v.len() - 1) % 2 == 0);
        assert(space_even_positions(v) == space_even_positions(t) + seq![' ', e[0]]);
        assert((u.len() - 1) % 2 == 1);
        assert(space_even_positions(u) == space_even_positions(v) + seq![e[1]]);
        assert(seq![' '] + e =~= seq![' ', e[0]] + seq![e[1]]);
    }
}

/// The packet builder's text is the six header bytes and then the data
/// bytes, each written as a space and two lowercase hex digits.
pub proof fn lemma_spoof_output_octets(
    version: u16,
    type_bit: u16,
    apid: u16,
    seq_count: u16,
    data: Seq<u8>,
)
    ensures
        spoof_output(version, type_bit, apid, seq_count, data) == spaced_hex(
            header_bytes(word1(version, type_bit, apid), seq_count, word3(data.len())) + data,
        ),
{
    let w1 = word1(version, type_bit, apid);
    let w3 = word3(data.len());
    let hb = header_bytes(w1, seq_count, w3);
    let x = header_u64(w1, seq_count, w3);
    lemma_header_u64_bytes(w1, seq_count, w3);
    let z = seq![0u8, 0u8] + hb;
    lemma_hex_encode_len(z);
    lemma_ascii_utf8_len(hex_encode(z));
    let all = char_pairs(hex_encode(z));
    let hp = char_pairs(hex_encode(hb));
    assert forall|k: int| 0 <= k < hp.len() implies #[trigger] all.skip(2)[k] == hp[k] by {
        assert(all.skip(2)[k] =~= hp[k]);
    }
    assert(all.skip(2) =~= hp);
    lemma_pairs_of_hex(hb);
    let dump = simple_hex_dump(data);
    lemma_simple_hex_chars(data);
    lemma_remove_absent_char(dump, '\n');
    lemma_remove_absent_char(dump, '\r');
    lemma_simple_hex_without_spaces(data);
    lemma_space_even_of_hex(data);
    lemma_spaced_hex_append(hb, data);
}

/// A header built from fields that pass the field checks reads back as those
/// fields: version, packet type, APID and sequence count, with the number of
/// data bytes in the length word (which the reader takes as one less than
/// its data length).
pub proof fn lemma_spoofed_header_reads_back(
    version: u16,
    type_bit: u16,
    apid: u16,
    seq_count: u16,
    data_len: nat,
)
    requires
        field_check_spec(version, type_bit, apid, seq_count, data_len) is None,
    ensures
        ({
            let h = header_bytes(word1(version, type_bit, apid), seq_count, word3(data_len));
            &&& spec_version(h) == version
            &&& spec_packet_type(h) == if type_bit == 0 {
                PacketType::Data
            } else {
                PacketType::Command
            }
            &&& spec_apid(h) == apid
            &&& spec_sequence_count(h) == seq_count
            &&& header_word(h, 4) == data_len
            &&& spec_data_length(h) == data_len + 1
        }),
{
    let w1 = word1(version, type_bit, apid);
    let w3 = word3(data_len);
    let h = header_bytes(w1, seq_count, w3);
    assert(header_word(h, 0) == w1);
    assert(header_word(h, 2) == seq_count);
    assert(header_word(h, 4) == w3);
    assert(w1 / 8192 == version && (w1 / 4096) % 2 == type_bit && w1 % 2048 == apid)
        by (bit_vector)
        requires
            w1 == (type_bit << 12u16) | (apid | (version << 13u16)),
            version < 8,
            type_bit < 2,
            apid < 2048,
    ;
}

} // verus!
