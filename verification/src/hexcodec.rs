//! Hexadecimal text: decoding hex text into bytes and encoding bytes as hex,
//! through the `hex`, `rustc-hex` and `pretty-hex` crates.
use crate::text::remove_char;
use hex::FromHex;
use rustc_hex::ToHex;
use vstd::prelude::*;
use vstd::utf8::encode_utf8;

verus! {

// ---------------------------------------------------------------------------
// Specifications
// ---------------------------------------------------------------------------

/// The value of a hex digit byte (either case), if it is one.
pub open spec fn hex_value(b: u8) -> Option<u8> {
    if 48 <= b <= 57 {
        Some((b - 48) as u8)
    } else if 65 <= b <= 70 {
        Some((b - 55) as u8)
    } else if 97 <= b <= 102 {
        Some((b - 87) as u8)
    } else {
        None
    }
}

/// Why hex text does not decode, as `hex::FromHexError` tells it.
#[derive(Debug, Clone, Copy, PartialEq, Eq, Structural)]
pub enum HexError {
    /// The byte at `index` is not a hex digit; `c` is that byte as a `char`.
    InvalidHexCharacter { c: char, index: usize },
    /// The text has an odd number of bytes.
    OddLength,
    /// The output buffer has the wrong length.
    InvalidStringLength,
}

/// The position of the first byte at or after `i` that is not a hex digit.
pub open spec fn first_non_hex(s: Seq<u8>, i: int) -> Option<int>
    decreases s.len() - i,
{
    if i < 0 || i >= s.len() {
        None
    } else if hex_value(s[i]) is None {
        Some(i)
    } else {
        first_non_hex(s, i + 1)
    }
}

/// The bytes that pairs of hex digits denote, high digit first.
pub open spec fn hex_pairs(s: Seq<u8>) -> Seq<u8> {
    Seq::new(
        s.len() / 2,
        |k: int| (hex_value(s[2 * k]).unwrap() * 16 + hex_value(s[2 * k + 1]).unwrap()) as u8,
    )
}

/// Decoding of hex text: an odd length is refused first, then the first
/// byte that is not a hex digit; otherwise each pair of digits is a byte.
pub open spec fn hex_decode(s: Seq<u8>) -> Result<Seq<u8>, HexError> {
    if s.len() % 2 != 0 {
        Err(HexError::OddLength)
    } else {
        match first_non_hex(s, 0) {
            Some(i) => Err(HexError::InvalidHexCharacter { c: s[i] as char, index: i as usize }),
            None => Ok(hex_pairs(s)),
        }
    }
}

/// The lowercase hex digit for `n < 16`.
pub open spec fn lower_hex_digit(n: int) -> char {
    if n < 10 {
        (n + 48) as char
    } else {
        (n + 87) as char
    }
}

/// Two lowercase hex digits per byte, high digit first.
pub open spec fn hex_encode(b: Seq<u8>) -> Seq<char> {
    Seq::new(
        2 * b.len(),
        |i: int|
            lower_hex_digit(
                if i % 2 == 0 {
                    b[i / 2] / 16
                } else {
                    b[i / 2] % 16
                } as int,
            ),
    )
}

/// What stands before byte `i` in a one-line `pretty_hex` dump: nothing
/// before the first byte, two spaces before each group of four, one space
/// otherwise.
pub open spec fn simple_hex_delimiter(i: int) -> Seq<char> {
    if i == 0 {
        Seq::<char>::empty()
    } else if i % 4 == 0 {
        seq![' ', ' ']
    } else {
        seq![' ']
    }
}

/// The one-line hex dump that `pretty_hex::simple_hex` writes.
pub open spec fn simple_hex_dump(b: Seq<u8>) -> Seq<char>
    decreases b.len(),
{
    if b.len() == 0 {
        Seq::<char>::empty()
    } else {
        simple_hex_dump(b.drop_last()) + simple_hex_delimiter(b.len() - 1) + hex_encode(
            seq![b.last()],
        )
    }
}

/// `s` without line feeds, carriage returns and spaces.
pub open spec fn strip_layout(s: Seq<u8>) -> Seq<u8> {
    s.filter(|b: u8| b != 10 && b != 13 && b != 32)
}

/// The hex decoding of text given as characters, through its UTF-8 bytes.
pub open spec fn hex_decode_chars(t: Seq<char>) -> Result<Seq<u8>, HexError> {
    hex_decode(encode_utf8(t))
}

// ---------------------------------------------------------------------------
// Trusted calls into the hex crates
// ---------------------------------------------------------------------------

/// Calls `<Vec<u8> as hex::FromHex>::from_hex` on the bytes. Its source
/// refuses an odd length first, then reports the first byte that is not a
/// hex digit (`c` is that byte as a `char`, `index` its position), and
/// otherwise turns each pair of digits into a byte, high digit first.
#[verifier::external_body]
fn from_hex_bytes(text: &[u8]) -> (r: Result<Vec<u8>, HexError>)
    ensures
        match r {
            Ok(v) => hex_decode(text@) == Ok::<Seq<u8>, HexError>(v@),
            Err(e) => hex_decode(text@) == Err::<Seq<u8>, HexError>(e),
        },
{
    match Vec::<u8>::from_hex(text) {
        Ok(v) => Ok(v),
        Err(hex::FromHexError::InvalidHexCharacter { c, index }) => Err(
            HexError::InvalidHexCharacter { c, index },
        ),
        Err(hex::FromHexError::OddLength) => Err(HexError::OddLength),
        Err(hex::FromHexError::InvalidStringLength) => Err(HexError::InvalidStringLength),
    }
}

/// Calls `hex::decode` on the UTF-8 text of `token`. `hex::decode` is
/// `FromHex::from_hex` for `Vec<u8>` on the string's bytes, so the result is
/// the same decoding as `from_hex_bytes`, of the token's UTF-8 encoding.
#[verifier::external_body]
fn decode_token(token: &Vec<char>) -> (r: Result<Vec<u8>, HexError>)
    ensures
        match r {
            Ok(v) => hex_decode_chars(token@) == Ok::<Seq<u8>, HexError>(v@),
            Err(e) => hex_decode_chars(token@) == Err::<Seq<u8>, HexError>(e),
        },
{
    let s: String = token.iter().collect();
    match hex::decode(&s) {
        Ok(v) => Ok(v),
        Err(hex::FromHexError::InvalidHexCharacter { c, index }) => Err(
            HexError::InvalidHexCharacter { c, index },
        ),
        Err(hex::FromHexError::OddLength) => Err(HexError::OddLength),
        Err(hex::FromHexError::InvalidStringLength) => Err(HexError::InvalidStringLength),
    }
}

/// Calls `hex::encode`, which writes two lowercase hex digits per byte, high
/// digit first.
#[verifier::external_body]
fn encode_lower(bytes: &Vec<u8>) -> (r: Vec<char>)
    ensures
        r@ == hex_encode(bytes@),
{
    hex::encode(bytes).chars().collect()
}

/// Calls `rustc_hex::ToHex::to_hex` on a byte slice, which yields two
/// lowercase hex digits per byte, high digit first.
#[verifier::external_body]
fn to_hex_lower(bytes: &[u8]) -> (r: Vec<char>)
    ensures
        r@ == hex_encode(bytes@),
{
    let s: String = bytes.to_hex();
    s.chars().collect()
}

/// Calls `pretty_hex::simple_hex`. With its simple configuration (no title,
/// no ASCII column, one row, chunks of one byte, groups of four) it writes
/// each byte as two lowercase hex digits, separated by one space, and by two
/// spaces before every fourth byte; nothing for no bytes.
#[verifier::external_body]
fn simple_hex_chars(bytes: &Vec<u8>) -> (r: Vec<char>)
    ensures
        r@ == simple_hex_dump(bytes@),
{
    pretty_hex::simple_hex(bytes).chars().collect()
}

// ---------------------------------------------------------------------------
// Verified functions
// ---------------------------------------------------------------------------

/// `text` without line feeds, carriage returns and spaces.
pub fn strip_layout_bytes(text: &Vec<u8>) -> (r: Vec<u8>)
    ensures
        r@ == strip_layout(text@),
{
    let mut r: Vec<u8> = Vec::new();
    let mut i: usize = 0;
    while i < text.len()
        invariant
            i <= text.len(),
            r@ == strip_layout(text@.take(i as int)),
        decreases text.len() - i,
    {
        proof {
            let t = text@.take(i + 1);
            assert(t.drop_last() =~= text@.take(i as int));
            reveal_with_fuel(Seq::filter, 1);
        }
        let b = text[i];
        if b != 10 && b != 13 && b != 32 {
            r.push(b);
        }
        i = i + 1;
    }
    assert(text@.take(text.len() as int) =~= text@);
    r
}

/// Decodes hex text as the packet tools read it: line feeds, carriage
/// returns and spaces are dropped, and the rest is decoded with
/// `hex::FromHex`.
pub fn decode_packet_text(text: &Vec<u8>) -> (r: Result<Vec<u8>, HexError>)
    ensures
        match r {
            Ok(v) => hex_decode(strip_layout(text@)) == Ok::<Seq<u8>, HexError>(v@),
            Err(e) => hex_decode(strip_layout(text@)) == Err::<Seq<u8>, HexError>(e),
        },
{
    let cleaned = strip_layout_bytes(text);
    from_hex_bytes(cleaned.as_slice())
}

/// Decodes one whitespace-free hex token with `hex::decode`.
pub fn decode_hex_token(token: &Vec<char>) -> (r: Result<Vec<u8>, HexError>)
    ensures
        match r {
            Ok(v) => hex_decode_chars(token@) == Ok::<Seq<u8>, HexError>(v@),
            Err(e) => hex_decode_chars(token@) == Err::<Seq<u8>, HexError>(e),
        },
{
    decode_token(token)
}

/// The bytes as lowercase hex digits (`hex::encode`).
pub fn encode_hex(bytes: &Vec<u8>) -> (r: Vec<char>)
    ensures
        r@ == hex_encode(bytes@),
{
    encode_lower(bytes)
}

/// The bytes as lowercase hex digits (`rustc_hex::ToHex`).
pub fn to_hex(bytes: &[u8]) -> (r: Vec<char>)
    ensures
        r@ == hex_encode(bytes@),
{
    to_hex_lower(bytes)
}

/// The one-line hex dump of the bytes (`pretty_hex::simple_hex`).
pub fn simple_hex(bytes: &Vec<u8>) -> (r: Vec<char>)
    ensures
        r@ == simple_hex_dump(bytes@),
{
    simple_hex_chars(bytes)
}

// ---------------------------------------------------------------------------
// Laws
// ---------------------------------------------------------------------------

pub(crate) proof fn lemma_hex_digit_roundtrip(n: int)
    requires
        0 <= n < 16,
    ensures
        hex_value(lower_hex_digit(n) as u8) == Some(n as u8),
        (lower_hex_digit(n) as u32) < 128,
{
}

/// Decoding the hex encoding of any bytes gives those bytes back.
pub proof fn lemma_decode_encode(b: Seq<u8>)
    ensures
        hex_decode(chars_as_bytes(hex_encode(b))) == Ok::<Seq<u8>, HexError>(b),
{
    let s = chars_as_bytes(hex_encode(b));
    assert forall|i: int| 0 <= i < s.len() implies hex_value(#[trigger] s[i]) is Some by {
        let d = if i % 2 == 0 {
            b[i / 2] / 16
        } else {
            b[i / 2] % 16
        } as int;
        lemma_hex_digit_roundtrip(d);
    }
    lemma_first_non_hex_none(s, 0);
    assert(s.len() % 2 == 0);
    assert forall|k: int| 0 <= k < b.len() implies #[trigger] hex_pairs(s)[k] == b[k] by {
        lemma_hex_digit_roundtrip((b[k] / 16) as int);
        lemma_hex_digit_roundtrip((b[k] % 16) as int);
        assert((2 * k) % 2 == 0);
        assert((2 * k + 1) % 2 == 1);
        assert((2 * k) / 2 == k);
        assert((2 * k + 1) / 2 == k);
    }
    assert(hex_pairs(s) =~= b);
}

/// Each character of ASCII text as its byte.
pub open spec fn chars_as_bytes(s: Seq<char>) -> Seq<u8> {
    Seq::new(s.len(), |i: int| s[i] as u8)
}

proof fn lemma_first_non_hex_none(s: Seq<u8>, i: int)
    requires
        0 <= i <= s.len(),
        forall|k: int| 0 <= k < s.len() ==> hex_value(#[trigger] s[k]) is Some,
    ensures
        first_non_hex(s, i) is None,
    decreases s.len() - i,
{
    if i < s.len() {
        lemma_first_non_hex_none(s, i + 1);
    }
}

/// Encoding bytes one more byte at a time appends that byte's two digits.
pub proof fn lemma_hex_encode_push(b: Seq<u8>)
    requires
        b.len() > 0,
    ensures
        hex_encode(b) == hex_encode(b.drop_last()) + hex_encode(seq![b.last()]),
{
    let p = b.drop_last();
    let e = hex_encode(seq![b.last()]);
    assert forall|i: int| 0 <= i < hex_encode(b).len() implies #[trigger] hex_encode(b)[i] == (
    hex_encode(p) + e)[i] by {
        if i >= 2 * p.len() {
            assert(i / 2 == p.len());
            assert((i - 2 * p.len()) / 2 == 0);
            assert(i % 2 == (i - 2 * p.len()) % 2);
        } else {
            assert(i / 2 < p.len());
        }
    }
    assert(hex_encode(b) =~= hex_encode(p) + e);
}

/// Every character of a `simple_hex` dump is a space or a lowercase hex digit.
pub proof fn lemma_simple_hex_chars(b: Seq<u8>)
    ensures
        forall|i: int|
            0 <= i < simple_hex_dump(b).len() ==> {
                let c = #[trigger] simple_hex_dump(b)[i];
                c == ' ' || 48 <= (c as u32) <= 57 || 97 <= (c as u32) <= 102
            },
    decreases b.len(),
{
    if b.len() > 0 {
        let p = b.drop_last();
        lemma_simple_hex_chars(p);
        let d = simple_hex_delimiter(b.len() - 1);
        let e = hex_encode(seq![b.last()]);
        let s = simple_hex_dump(b);
        assert(s == simple_hex_dump(p) + d + e);
        assert forall|i: int| 0 <= i < s.len() implies {
            let c = #[trigger] s[i];
            c == ' ' || 48 <= (c as u32) <= 57 || 97 <= (c as u32) <= 102
        } by {
            let lp = simple_hex_dump(p).len();
            if i >= lp + d.len() {
                let j = i - lp - d.len();
                assert(s[i] == e[j]);
                let v = if j % 2 == 0 {
                    b.last() / 16
                } else {
                    b.last() % 16
                } as int;
                assert(e[j] == lower_hex_digit(v));
            } else if i >= lp {
                assert(s[i] == d[i - lp]);
            } else {
                assert(s[i] == simple_hex_dump(p)[i]);
            }
        }
    }
}

/// Removing the spaces from a `simple_hex` dump leaves the plain hex
/// encoding of the bytes.
pub proof fn lemma_simple_hex_without_spaces(b: Seq<u8>)
    ensures
        remove_char(simple_hex_dump(b), ' ') == hex_encode(b),
    decreases b.len(),
{
    reveal_with_fuel(Seq::filter, 1);
    if b.len() > 0 {
        let p = b.drop_last();
        lemma_simple_hex_without_spaces(p);
        let d = simple_hex_delimiter(b.len() - 1);
        let e = hex_encode(seq![b.last()]);
        lemma_hex_digit_roundtrip((b.last() / 16) as int);
        lemma_hex_digit_roundtrip((b.last() % 16) as int);
        Seq::filter_distributes_over_add(simple_hex_dump(p) + d, e, |x: char| x != ' ');
        Seq::filter_distributes_over_add(simple_hex_dump(p), d, |x: char| x != ' ');
        assert(remove_char(d, ' ') =~= Seq::<char>::empty()) by {
            reveal_with_fuel(Seq::filter, 3);
        }
        assert(e =~= seq![lower_hex_digit((b.last() / 16) as int), lower_hex_digit((b.last() % 16) as int)]);
        assert(remove_char(e, ' ') =~= e) by {
            reveal_with_fuel(Seq::filter, 3);
        }
        assert(hex_encode(b) =~= hex_encode(p) + e) by {
            assert forall|i: int| 0 <= i < hex_encode(b).len() implies #[trigger] hex_encode(b)[i] == (hex_encode(p) + e)[i] by {
                if i >= 2 * p.len() {
                    assert(i / 2 == p.len());
                } else {
                    assert(i / 2 < p.len());
                }
            }
        }
    } else {
        assert(remove_char(Seq::<char>::empty(), ' ') =~= Seq::<char>::empty());
        assert(hex_encode(b) =~= Seq::<char>::empty());
    }
}

} // verus!
