//! The protocol dumpers: hex token text turned into bytes, and the NTP, SNMP,
//! SSH and TLS parsers of the rusticata crates, whose results are dumped in
//! Rust's pretty debug format.
use crate::hexcodec::{decode_hex_token, hex_decode_chars, HexError};
use crate::text::{
    chars_eq, copy_range, is_white_space, split_chars, split_on, str_chars, trim, trim_chars,
    trim_end, trim_start,
};
use vstd::prelude::*;
use vstd::utf8::encode_scalar;

verus! {

// ---------------------------------------------------------------------------
// Hex token text
// ---------------------------------------------------------------------------

/// `s` with every line feed turned into a space.
pub open spec fn newlines_to_spaces(s: Seq<char>) -> Seq<char> {
    Seq::new(s.len(), |i: int| if s[i] == '\n' { ' ' } else { s[i] })
}

/// The tokens of hex text: the trimmed text, line feeds read as spaces,
/// split at every space (so two spaces in a row make an empty token).
pub open spec fn hex_tokens(text: Seq<char>) -> Seq<Seq<char>> {
    split_on(newlines_to_spaces(trim(text)), ' ')
}

/// Why hex token text does not give bytes.
#[derive(Debug, Clone, Copy, PartialEq, Eq, Structural)]
pub enum TokenError {
    /// A token is not hex (`hex::decode` refuses it).
    Decode(HexError),
    /// A token decodes to no bytes.
    EmptyToken,
}

/// The bytes of the tokens: the last byte that each token decodes to, in
/// order; the first token that fails ends the decoding.
pub open spec fn decode_tokens(tokens: Seq<Seq<char>>) -> Result<Seq<u8>, TokenError>
    decreases tokens.len(),
{
    if tokens.len() == 0 {
        Ok(Seq::<u8>::empty())
    } else {
        match hex_decode_chars(tokens[0]) {
            Err(e) => Err(TokenError::Decode(e)),
            Ok(b) => if b.len() == 0 {
                Err(TokenError::EmptyToken)
            } else {
                match decode_tokens(tokens.drop_first()) {
                    Ok(rest) => Ok(seq![b.last()] + rest),
                    Err(e) => Err(e),
                }
            },
        }
    }
}

fn newlines_to_spaces_exec(s: &Vec<char>) -> (r: Vec<char>)
    ensures
        r@ == newlines_to_spaces(s@),
{
    let mut r: Vec<char> = Vec::new();
    let mut i: usize = 0;
    while i < s.len()
        invariant
            i <= s.len(),
            r@ == newlines_to_spaces(s@).take(i as int),
        decreases s.len() - i,
    {
        if s[i] == '\n' {
            r.push(' ');
        } else {
            r.push(s[i]);
        }
        i = i + 1;
        assert(r@ =~= newlines_to_spaces(s@).take(i as int));
    }
    assert(newlines_to_spaces(s@).take(s.len() as int) =~= newlines_to_spaces(s@));
    r
}

/// Reads hex token text into bytes, as the NTP and TLS dumpers do: each
/// space-separated token is hex-decoded and its last byte kept.
pub fn decode_hex_tokens(text: &Vec<char>) -> (r: Result<Vec<u8>, TokenError>)
    ensures
        match r {
            Ok(v) => decode_tokens(hex_tokens(text@)) == Ok::<Seq<u8>, TokenError>(v@),
            Err(e) => decode_tokens(hex_tokens(text@)) == Err::<Seq<u8>, TokenError>(e),
        },
{
    let t = trim_chars(text);
    let spaced = newlines_to_spaces_exec(&t);
    let tokens = split_chars(&spaced, ' ');
    let ghost tv = tokens.deep_view();
    let mut out: Vec<u8> = Vec::new();
    let mut i: usize = 0;
    assert(tv.skip(0) =~= tv);
    while i < tokens.len()
        invariant
            i <= tokens.len() == tv.len(),
            tv == tokens.deep_view(),
            tv == hex_tokens(text@),
            decode_tokens(tv) == match decode_tokens(tv.skip(i as int)) {
                Ok(rest) => Ok::<Seq<u8>, TokenError>(out@ + rest),
                Err(e) => Err::<Seq<u8>, TokenError>(e),
            },
        decreases tokens.len() - i,
    {
        let ghost sk = tv.skip(i as int);
        assert(sk[0] == tokens@[i as int]@);
        assert(sk.drop_first() =~= tv.skip(i + 1));
        match decode_hex_token(&tokens[i]) {
            Err(e) => {
                return Err(TokenError::Decode(e));
            },
            Ok(mut bytes) => {
                match bytes.pop() {
                    None => {
                        return Err(TokenError::EmptyToken);
                    },
                    Some(b) => {
                        let ghost before = out@;
                        out.push(b);
                        proof {
                            match decode_tokens(tv.skip(i + 1)) {
                                Ok(rest) => {
                                    assert(before + (seq![b] + rest) =~= out@ + rest);
                                },
                                Err(_) => {},
                            }
                        }
                    },
                }
            },
        }
        i = i + 1;
    }
    assert(tv.skip(tokens.len() as int) =~= Seq::<Seq<char>>::empty());
    assert(out@ + Seq::<u8>::empty() =~= out@);
    Ok(out)
}

// ---------------------------------------------------------------------------
// Parsers
// ---------------------------------------------------------------------------

/// What `ntp_parser::parse_ntp` gives for a packet, dumped: the parsed V3 or
/// V4 packet in pretty debug format, or the parser's error message.
pub uninterp spec fn ntp_parse_dump(packet: Seq<u8>) -> Result<Seq<char>, Seq<char>>;

/// What `snmp_parser::parse_snmp_generic_message` gives for a message,
/// dumped: the V1, V2c or V3 message in pretty debug format, or the
/// parser's error message.
pub uninterp spec fn snmp_parse_dump(message: Seq<u8>) -> Result<Seq<char>, Seq<char>>;

/// What `ssh_parser::parse_ssh_packet` gives for a packet, dumped: the
/// parsed packet (without its padding) in pretty debug format, or the
/// parser's error message.
pub uninterp spec fn ssh_parse_dump(packet: Seq<u8>) -> Result<Seq<char>, Seq<char>>;

/// What `tls_parser::parse_tls_plaintext` gives for a record, dumped.
pub uninterp spec fn tls_plaintext_dump(record: Seq<u8>) -> Result<Seq<char>, Seq<char>>;

/// What `tls_parser::parse_tls_encrypted` gives for a record, dumped.
pub uninterp spec fn tls_encrypted_dump(record: Seq<u8>) -> Result<Seq<char>, Seq<char>>;

/// The content of a dump result.
pub open spec fn dump_view(r: Result<Vec<char>, Vec<char>>) -> Result<Seq<char>, Seq<char>> {
    match r {
        Ok(t) => Ok(t@),
        Err(m) => Err(m@),
    }
}

/// Calls `ntp_parser::parse_ntp` and dumps the V3 or V4 packet with `{:#?}`,
/// or the error with `{}`. The result depends on the bytes alone; nothing
/// more of it is stated.
#[verifier::external_body]
fn ntp_parse(packet: &Vec<u8>) -> (r: Result<Vec<char>, Vec<char>>)
    ensures
        dump_view(r) == ntp_parse_dump(packet@),
{
    match ntp_parser::parse_ntp(packet) {
        Ok((_, ntp_parser::NtpPacket::V3(p))) => Ok(format!("{:#?}", p).chars().collect()),
        Ok((_, ntp_parser::NtpPacket::V4(p))) => Ok(format!("{:#?}", p).chars().collect()),
        Err(e) => Err(format!("{}", e).chars().collect()),
    }
}

/// Calls `snmp_parser::parse_snmp_generic_message` and dumps the V1, V2c or
/// V3 message with `{:#?}`, or the error with `{}`. The result depends on
/// the bytes alone; nothing more of it is stated.
#[verifier::external_body]
fn snmp_parse(message: &Vec<u8>) -> (r: Result<Vec<char>, Vec<char>>)
    ensures
        dump_view(r) == snmp_parse_dump(message@),
{
    match snmp_parser::parse_snmp_generic_message(message) {
        Ok((_, snmp_parser::SnmpGenericMessage::V1(m))) => Ok(format!("{:#?}", m).chars().collect()),
        Ok((_, snmp_parser::SnmpGenericMessage::V2(m))) => Ok(format!("{:#?}", m).chars().collect()),
        Ok((_, snmp_parser::SnmpGenericMessage::V3(m))) => Ok(format!("{:#?}", m).chars().collect()),
        Err(e) => Err(format!("{}", e).chars().collect()),
    }
}

/// Calls `ssh_parser::parse_ssh_packet` and dumps the packet with `{:#?}`,
/// or the error with `{}`. The result depends on the bytes alone; nothing
/// more of it is stated.
#[verifier::external_body]
fn ssh_parse(packet: &Vec<u8>) -> (r: Result<Vec<char>, Vec<char>>)
    ensures
        dump_view(r) == ssh_parse_dump(packet@),
{
    match ssh_parser::parse_ssh_packet(packet) {
        Ok((_, (p, _))) => Ok(format!("{:#?}", p).chars().collect()),
        Err(e) => Err(format!("{}", e).chars().collect()),
    }
}

/// Calls `tls_parser::parse_tls_plaintext` and dumps the record with
/// `{:#?}`, or the error with `{}`. The result depends on the bytes alone;
/// nothing more of it is stated.
#[verifier::external_body]
fn tls_plaintext_parse(record: &Vec<u8>) -> (r: Result<Vec<char>, Vec<char>>)
    ensures
        dump_view(r) == tls_plaintext_dump(record@),
{
    match tls_parser::parse_tls_plaintext(record) {
        Ok((_, p)) => Ok(format!("{:#?}", p).chars().collect()),
        Err(e) => Err(format!("{}", e).chars().collect()),
    }
}

/// Calls `tls_parser::parse_tls_encrypted` and dumps the record with
/// `{:#?}`, or the error with `{}`. The result depends on the bytes alone;
/// nothing more of it is stated.
#[verifier::external_body]
fn tls_encrypted_parse(record: &Vec<u8>) -> (r: Result<Vec<char>, Vec<char>>)
    ensures
        dump_view(r) == tls_encrypted_dump(record@),
{
    match tls_parser::parse_tls_encrypted(record) {
        Ok((_, p)) => Ok(format!("{:#?}", p).chars().collect()),
        Err(e) => Err(format!("{}", e).chars().collect()),
    }
}

/// Parses an NTP packet and dumps it.
pub fn ntp_dump(packet: &Vec<u8>) -> (r: Result<Vec<char>, Vec<char>>)
    ensures
        dump_view(r) == ntp_parse_dump(packet@),
{
    ntp_parse(packet)
}

/// Parses an SNMP message of any version and dumps it.
pub fn snmp_dump(message: &Vec<u8>) -> (r: Result<Vec<char>, Vec<char>>)
    ensures
        dump_view(r) == snmp_parse_dump(message@),
{
    snmp_parse(message)
}

/// Parses an SSH packet and dumps it.
pub fn ssh_dump(packet: &Vec<u8>) -> (r: Result<Vec<char>, Vec<char>>)
    ensures
        dump_view(r) == ssh_parse_dump(packet@),
{
    ssh_parse(packet)
}

/// Parses a TLS record, as an encrypted record or as a plaintext one, and
/// dumps it.
pub fn tls_dump(encrypted: bool, record: &Vec<u8>) -> (r: Result<Vec<char>, Vec<char>>)
    ensures
        dump_view(r) == if encrypted {
            tls_encrypted_dump(record@)
        } else {
            tls_plaintext_dump(record@)
        },
{
    if encrypted {
        tls_encrypted_parse(record)
    } else {
        tls_plaintext_parse(record)
    }
}

// ---------------------------------------------------------------------------
// The TLS file name extension
// ---------------------------------------------------------------------------

/// The number of UTF-8 bytes of a character.
pub open spec fn char_width(c: char) -> int {
    encode_scalar(c as u32).len() as int
}

/// The index of the character of `line` that starts at byte `b`, if one does
/// (or `line.len()` for the end of the text).
pub open spec fn char_index_at_byte(line: Seq<char>, b: int) -> Option<int>
    decreases line.len(),
{
    if b == 0 {
        Some(0)
    } else if b < 0 || line.len() == 0 {
        None
    } else {
        match char_index_at_byte(line.drop_first(), b - char_width(line[0])) {
            Some(j) => Some(j + 1),
            None => None,
        }
    }
}

/// The position of the last `.` in `t`.
pub open spec fn last_dot(t: Seq<char>) -> Option<int>
    decreases t.len(),
{
    if t.len() == 0 {
        None
    } else if t.last() == '.' {
        Some(t.len() - 1)
    } else {
        last_dot(t.drop_last())
    }
}

/// Whether reading the file name's extension slices the line inside a
/// character: the position of each `.` in the trimmed name is used as a
/// byte position in the untrimmed line.
pub open spec fn extension_panics(line: Seq<char>) -> bool {
    let t = trim(line);
    exists|k: int| 0 <= k < t.len() && t[k] == '.' && char_index_at_byte(line, k) is None
}

/// Whether the TLS dumper takes the file as an encrypted record: the line
/// from the byte position of the last `.` of the trimmed name on, trimmed,
/// is `.enc`.
pub open spec fn is_encrypted_name(line: Seq<char>) -> bool {
    match last_dot(trim(line)) {
        None => false,
        Some(k) => match char_index_at_byte(line, k) {
            Some(j) => trim(line.skip(j)) == ".enc"@,
            None => false,
        },
    }
}

fn char_width_exec(c: char) -> (w: usize)
    ensures
        w == char_width(c),
{
    let v = c as u32;
    if v <= 0x7F {
        1
    } else if v <= 0x7FF {
        2
    } else if v <= 0xFFFF {
        3
    } else {
        4
    }
}

fn char_index_at_byte_exec(line: &Vec<char>, b: usize) -> (r: Option<usize>)
    ensures
        match r {
            Some(j) => char_index_at_byte(line@, b as int) == Some(j as int),
            None => char_index_at_byte(line@, b as int) is None,
        },
{
    let mut j: usize = 0;
    let mut rem: usize = b;
    assert(line@.skip(0) =~= line@);
    while j < line.len() && rem > 0
        invariant
            j <= line.len(),
            rem <= b,
            char_index_at_byte(line@, b as int) == match char_index_at_byte(
                line@.skip(j as int),
                rem as int,
            ) {
                Some(x) => Some(x + j),
                None => None::<int>,
            },
        decreases line.len() - j,
    {
        let w = char_width_exec(line[j]);
        let ghost s = line@.skip(j as int);
        assert(s[0] == line@[j as int]);
        assert(s.drop_first() =~= line@.skip(j + 1));
        if w > rem {
            assert(char_index_at_byte(s.drop_first(), rem - w) is None) by {
                lemma_char_index_negative(s.drop_first(), rem - w);
            }
            return None;
        }
        rem = rem - w;
        j = j + 1;
    }
    if rem == 0 {
        Some(j)
    } else {
        None
    }
}

proof fn lemma_char_index_negative(line: Seq<char>, b: int)
    requires
        b < 0,
    ensures
        char_index_at_byte(line, b) is None,
{
}

/// Whether reading the extension of the given file name line slices it
/// inside a character.
pub fn tls_extension_panics(line: &Vec<char>) -> (r: bool)
    ensures
        r == extension_panics(line@),
{
    let t = trim_chars(line);
    let mut k: usize = 0;
    while k < t.len()
        invariant
            k <= t.len(),
            t@ == trim(line@),
            forall|m: int| 0 <= m < k && t@[m] == '.' ==> char_index_at_byte(line@, m) is Some,
        decreases t.len() - k,
    {
        if t[k] == '.' {
            if char_index_at_byte_exec(line, k).is_none() {
                return true;
            }
        }
        k = k + 1;
    }
    false
}

fn last_dot_exec(t: &Vec<char>) -> (r: Option<usize>)
    ensures
        match r {
            Some(k) => last_dot(t@) == Some(k as int),
            None => last_dot(t@) is None,
        },
{
    let mut k: usize = t.len();
    assert(t@.take(k as int) =~= t@);
    while k > 0
        invariant
            k <= t.len(),
            last_dot(t@) == last_dot(t@.take(k as int)),
        decreases k,
    {
        let ghost s = t@.take(k as int);
        assert(s.drop_last() =~= t@.take(k - 1));
        if t[k - 1] == '.' {
            return Some(k - 1);
        }
        k = k - 1;
    }
    None
}

/// Whether the TLS dumper reads the file named on the given line as an
/// encrypted record (its extension is `.enc`).
pub fn tls_is_encrypted(line: &Vec<char>) -> (r: bool)
    requires
        !extension_panics(line@),
    ensures
        r == is_encrypted_name(line@),
{
    let t = trim_chars(line);
    match last_dot_exec(&t) {
        None => false,
        Some(k) => {
            proof {
                lemma_last_dot_bounds(t@);
            }
            match char_index_at_byte_exec(line, k) {
                None => false,
                Some(j) => {
                    proof {
                        lemma_char_index_bound(line@, k as int);
                    }
                    let ext = copy_range(line, j, line.len());
                    assert(ext@ =~= line@.skip(j as int));
                    let te = trim_chars(&ext);
                    chars_eq(&te, &str_chars(".enc"))
                },
            }
        },
    }
}

proof fn lemma_last_dot_bounds(t: Seq<char>)
    ensures
        last_dot(t) matches Some(k) ==> 0 <= k < t.len() && t[k] == '.',
    decreases t.len(),
{
    if t.len() > 0 && t.last() != '.' {
        lemma_last_dot_bounds(t.drop_last());
    }
}

proof fn lemma_char_index_bound(line: Seq<char>, b: int)
    ensures
        char_index_at_byte(line, b) matches Some(j) ==> 0 <= j <= line.len(),
    decreases line.len(),
{
    if b != 0 && b >= 0 && line.len() > 0 {
        lemma_char_index_bound(line.drop_first(), b - char_width(line[0]));
    }
}

proof fn lemma_ascii_char_index(line: Seq<char>, k: int)
    requires
        forall|i: int| 0 <= i < line.len() ==> (#[trigger] line[i] as u32) < 128,
        0 <= k <= line.len(),
    ensures
        char_index_at_byte(line, k) == Some(k),
    decreases k,
{
    if k > 0 {
        assert((line[0] as u32) < 128);
        assert(char_width(line[0]) == 1);
        let d = line.drop_first();
        assert forall|i: int| 0 <= i < d.len() implies (#[trigger] d[i] as u32) < 128 by {
            assert(d[i] == line[i + 1]);
        }
        lemma_ascii_char_index(d, k - 1);
    }
}

proof fn lemma_trim_end_prefix(s: Seq<char>) -> (m: int)
    ensures
        0 <= m <= s.len(),
        trim_end(s) == s.take(m),
        m == 0 || !is_white_space(s[m - 1]),
        forall|i: int| m <= i < s.len() ==> is_white_space(#[trigger] s[i]),
    decreases s.len(),
{
    if s.len() > 0 && is_white_space(s.last()) {
        let m = lemma_trim_end_prefix(s.drop_last());
        assert(s.drop_last().take(m) =~= s.take(m));
        assert forall|i: int| m <= i < s.len() implies is_white_space(#[trigger] s[i]) by {
            if i < s.len() - 1 {
                assert(s.drop_last()[i] == s[i]);
            }
        }
        m
    } else {
        assert(s.take(s.len() as int) =~= s);
        s.len() as int
    }
}

proof fn lemma_trim_end_white_tail(x: Seq<char>, w: Seq<char>)
    requires
        x.len() > 0,
        !is_white_space(x.last()),
        forall|i: int| 0 <= i < w.len() ==> is_white_space(#[trigger] w[i]),
    ensures
        trim_end(x + w) == x,
    decreases w.len(),
{
    if w.len() == 0 {
        assert(x + w =~= x);
    } else {
        assert((x + w).drop_last() =~= x + w.drop_last());
        assert((x + w).last() == w[w.len() - 1]);
        assert forall|i: int| 0 <= i < w.drop_last().len() implies is_white_space(
            #[trigger] w.drop_last()[i],
        ) by {
            assert(w.drop_last()[i] == w[i]);
        }
        lemma_trim_end_white_tail(x, w.drop_last());
    }
}

proof fn lemma_last_dot_is_last(t: Seq<char>)
    ensures
        last_dot(t) matches Some(k) ==> forall|i: int| k < i < t.len() ==> t[i] != '.',
        last_dot(t) is None ==> forall|i: int| 0 <= i < t.len() ==> t[i] != '.',
    decreases t.len(),
{
    if t.len() > 0 {
        lemma_last_dot_is_last(t.drop_last());
        if t.last() != '.' {
            let d = t.drop_last();
            lemma_last_dot_bounds(d);
            if let Some(k) = last_dot(t) {
                assert(last_dot(d) == Some(k));
                assert forall|i: int| k < i < t.len() implies t[i] != '.' by {
                    if i < t.len() - 1 {
                        assert(t[i] == d[i]);
                    }
                }
            } else {
                assert forall|i: int| 0 <= i < t.len() implies t[i] != '.' by {
                    if i < t.len() - 1 {
                        assert(t[i] == d[i]);
                    }
                }
            }
        }
    }
}

/// For a file name line of ASCII characters with no white space before the
/// name, reading the extension never slices inside a character, and the
/// file is taken as an encrypted record exactly when the trimmed name ends
/// with `.enc`.
pub proof fn lemma_ascii_encrypted_name(line: Seq<char>)
    requires
        forall|i: int| 0 <= i < line.len() ==> (#[trigger] line[i] as u32) < 128,
        line.len() == 0 || !is_white_space(line[0]),
    ensures
        !extension_panics(line),
        is_encrypted_name(line) <==> (trim(line).len() >= 4 && trim(line).skip(
            trim(line).len() - 4,
        ) == ".enc"@),
{
    reveal_strlit(".enc");
    assert(trim_start(line) == line);
    let m = lemma_trim_end_prefix(line);
    let t = trim(line);
    assert(t == line.take(m));
    assert forall|k: int| 0 <= k < t.len() implies char_index_at_byte(line, k) is Some by {
        lemma_ascii_char_index(line, k);
    }
    lemma_last_dot_bounds(t);
    lemma_last_dot_is_last(t);
    let ends = t.len() >= 4 && t.skip(t.len() - 4) == ".enc"@;
    if ends {
        assert(t[t.len() - 4] == t.skip(t.len() - 4)[0]);
        assert(t[t.len() - 3] == t.skip(t.len() - 4)[1]);
        assert(t[t.len() - 2] == t.skip(t.len() - 4)[2]);
        assert(t[t.len() - 1] == t.skip(t.len() - 4)[3]);
    }
    match last_dot(t) {
        None => {},
        Some(k) => {
            lemma_ascii_char_index(line, k);
            let x = t.skip(k);
            let w = line.skip(m);
            assert(line.skip(k) =~= x + w);
            assert(x[0] == '.');
            assert(!is_white_space('.'));
            assert(trim_start(line.skip(k)) == line.skip(k));
            assert(x.last() == line[m - 1]);
            assert forall|i: int| 0 <= i < w.len() implies is_white_space(#[trigger] w[i]) by {
                assert(w[i] == line[m + i]);
            }
            lemma_trim_end_white_tail(x, w);
            assert(trim(line.skip(k)) == x);
            if ends {
                assert(k == t.len() - 4);
            }
            if x == ".enc"@ {
                assert(x.len() == 4);
                assert(t.skip(t.len() - 4) =~= x);
            }
        },
    }
}

// ---------------------------------------------------------------------------
// Laws of hex token text
// ---------------------------------------------------------------------------

proof fn lemma_trim_start_push(t: Seq<char>, w: char)
    requires
        is_white_space(w),
    ensures
        trim_end(trim_start(t.push(w))) == trim_end(trim_start(t)),
    decreases t.len(),
{
    if t.len() == 0 {
        assert(t.push(w).drop_first() =~= t);
        assert(trim_start(t.push(w)) == trim_start(t));
    } else if is_white_space(t[0]) {
        assert(t.push(w).drop_first() =~= t.drop_first().push(w));
        lemma_trim_start_push(t.drop_first(), w);
    } else {
        assert(trim_start(t.push(w)) == t.push(w));
        assert(t.push(w).drop_last() =~= t);
    }
}

/// White space at either end of hex text changes nothing: the tokens, and
/// so the bytes, are those of the text without it.
pub proof fn lemma_hex_tokens_ignore_outer_white_space(w: char, t: Seq<char>)
    requires
        is_white_space(w),
    ensures
        hex_tokens(seq![w] + t) == hex_tokens(t),
        hex_tokens(t.push(w)) == hex_tokens(t),
        decode_tokens(hex_tokens(seq![w] + t)) == decode_tokens(hex_tokens(t)),
        decode_tokens(hex_tokens(t.push(w))) == decode_tokens(hex_tokens(t)),
{
    assert((seq![w] + t).drop_first() =~= t);
    assert(trim_start(seq![w] + t) == trim_start(t));
    lemma_trim_start_push(t, w);
}

/// Hex text that, once trimmed, is not empty and holds no space or line
/// feed is a single token: the trimmed text, whatever white space stood
/// around it.
pub proof fn lemma_hex_tokens_single_token(t: Seq<char>)
    requires
        trim(t).len() > 0,
        !trim(t).contains(' '),
        !trim(t).contains('\n'),
    ensures
        hex_tokens(t) == seq![trim(t)],
{
    let u = trim(t);
    let v = newlines_to_spaces(u);
    assert(v =~= u) by {
        assert forall|i: int| 0 <= i < u.len() implies v[i] == u[i] by {
            if u[i] == '\n' {
                assert(u.contains('\n'));
            }
        }
    }
    lemma_split_without_sep(u, ' ');
}

proof fn lemma_split_without_sep(s: Seq<char>, sep: char)
    requires
        !s.contains(sep),
    ensures
        split_on(s, sep) == seq![s],
    decreases s.len(),
{
    if s.len() > 0 {
        assert(!s.drop_last().contains(sep)) by {
            if s.drop_last().contains(sep) {
                let i = choose|i: int| 0 <= i < s.drop_last().len() && s.drop_last()[i] == sep;
                assert(s[i] == sep);
            }
        }
        lemma_split_without_sep(s.drop_last(), sep);
        assert(s.last() != sep) by {
            if s.last() == sep {
                assert(s[s.len() - 1] == sep);
            }
        }
        assert(s.drop_last().push(s.last()) =~= s);
    } else {
        assert(s =~= Seq::<char>::empty());
    }
}

/// Each token gives one byte, the last byte it decodes to: the bytes of a
/// token list that decodes are as many as its tokens, byte `i` being the
/// last byte of token `i`; and a token list decodes whenever every token
/// is hex that decodes to at least one byte.
pub proof fn lemma_decode_tokens_per_token(toks: Seq<Seq<char>>)
    ensures
        decode_tokens(toks) matches Ok(v) ==> v.len() == toks.len() && forall|i: int|
            0 <= i < toks.len() ==> (hex_decode_chars(#[trigger] toks[i]) matches Ok(b) && b.len()
                > 0 && v[i] == b.last()),
        (forall|i: int|
            0 <= i < toks.len() ==> (hex_decode_chars(#[trigger] toks[i]) matches Ok(b) && b.len()
                > 0)) ==> decode_tokens(toks) is Ok,
    decreases toks.len(),
{
    if toks.len() > 0 {
        let d = toks.drop_first();
        lemma_decode_tokens_per_token(d);
        assert forall|i: int| 0 <= i < d.len() implies d[i] == toks[i + 1] by {}
        if let Ok(v) = decode_tokens(toks) {
            if let Ok(b) = hex_decode_chars(toks[0]) {
                if let Ok(rest) = decode_tokens(d) {
                    assert(v == seq![b.last()] + rest);
                    assert forall|i: int| 0 <= i < toks.len() implies (hex_decode_chars(
                        #[trigger] toks[i],
                    ) matches Ok(c) && c.len() > 0 && v[i] == c.last()) by {
                        if i > 0 {
                            assert(toks[i] == d[i - 1]);
                            assert(v[i] == rest[i - 1]);
                        }
                    }
                }
            }
        }
        if forall|i: int|
            0 <= i < toks.len() ==> (hex_decode_chars(#[trigger] toks[i]) matches Ok(b) && b.len()
                > 0) {
            assert forall|i: int| 0 <= i < d.len() implies (hex_decode_chars(#[trigger] d[i]) matches Ok(
                b,
            ) && b.len() > 0) by {
                assert(d[i] == toks[i + 1]);
            }
            assert(hex_decode_chars(toks[0]) matches Ok(b) && b.len() > 0);
        }
    }
}

} // verus!
