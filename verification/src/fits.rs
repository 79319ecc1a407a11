//! FITS file generation from a keyword description: reading keyword lines,
//! checking them against the `fits-rs` keyword table, rendering them as
//! header cards, and padding the data array to whole FITS blocks.
use crate::text::{
    chars_eq, contains_chars, contains_seq, lemma_chars_deep_view, parse_unsigned,
    parse_unsigned_chars, push_all, push_pad_left, push_pad_right, remove_char,
    remove_char_chars, spaces, pad_left, pad_right, split_chars, split_on, str_chars, trim,
    trim_chars, lemma_split_on_nonempty, IntErrorKind,
};
use fits_rs::types::Keyword;
use std::str::FromStr;
use vstd::prelude::*;
use vstd::utf8::{decode_utf8, valid_utf8};

verus! {

// ---------------------------------------------------------------------------
// Trusted calls
// ---------------------------------------------------------------------------

/// How `fits_rs::types::Keyword::from_str` takes a keyword name.
#[derive(Debug, Clone, Copy, PartialEq, Eq, Structural)]
pub enum KeywordClass {
    /// A keyword of the table, or an indexed keyword with its number.
    Known,
    /// Parsed as `Keyword::Unprocessed`: a name outside the table.
    Unprocessed,
    /// Refused: an indexed keyword whose index is not a number.
    Rejected,
}

/// What `Keyword::from_str` makes of a name.
pub uninterp spec fn fits_keyword_class(name: Seq<char>) -> KeywordClass;

/// Calls `fits_rs::types::Keyword::from_str` on the name and tells its
/// result apart: `Ok(Keyword::Unprocessed)`, any other `Ok`, or `Err`. The
/// outcome depends on the name alone (a fixed table and prefix match);
/// nothing more of it is stated.
#[verifier::external_body]
fn keyword_class(name: &Vec<char>) -> (r: KeywordClass)
    ensures
        r == fits_keyword_class(name@),
{
    let s: String = name.iter().collect();
    match Keyword::from_str(&s) {
        Ok(Keyword::Unprocessed) => KeywordClass::Unprocessed,
        Ok(_) => KeywordClass::Known,
        Err(_) => KeywordClass::Rejected,
    }
}

/// Calls `String::from_utf8`, which succeeds exactly on valid UTF-8 and then
/// holds the characters that the bytes encode.
#[verifier::external_body]
fn utf8_to_chars(bytes: &Vec<u8>) -> (r: Option<Vec<char>>)
    ensures
        match r {
            Some(c) => valid_utf8(bytes@) && c@ == decode_utf8(bytes@),
            None => !valid_utf8(bytes@),
        },
{
    match String::from_utf8(bytes.clone()) {
        Ok(s) => Some(s.chars().collect()),
        Err(_) => None,
    }
}

// ---------------------------------------------------------------------------
// Reading keyword lines
// ---------------------------------------------------------------------------

/// The position of the first line feed at or after `start`.
pub open spec fn next_newline(v: Seq<u8>, start: int) -> Option<int>
    decreases v.len() - start,
{
    if start < 0 || start >= v.len() {
        None
    } else if v[start] == 10 {
        Some(start)
    } else {
        next_newline(v, start + 1)
    }
}

/// What reading keyword lines gives: the trimmed lines, the remaining bytes
/// after the last line read, and the first line that is not UTF-8, if
/// reading stopped there.
pub struct ScanSpec {
    pub keywords: Seq<Seq<char>>,
    pub rest: Seq<u8>,
    pub bad_line: Option<Seq<u8>>,
}

/// Reads lines from `start` on, after the lines `kw`: at most ten, up to
/// and including a line that trims to `END`; a line that is not UTF-8 ends
/// the reading with nothing read.
pub open spec fn kw_scan(v: Seq<u8>, start: int, kw: Seq<Seq<char>>) -> ScanSpec
    decreases v.len() - start,
{
    if start < 0 || start > v.len() {
        ScanSpec { keywords: kw, rest: v, bad_line: None }
    } else if kw.len() >= 10 {
        ScanSpec { keywords: kw, rest: v.skip(start), bad_line: None }
    } else {
        match next_newline(v, start) {
            None => ScanSpec { keywords: kw, rest: v.skip(start), bad_line: None },
            Some(p) => {
                if p < start || p >= v.len() {
                    ScanSpec { keywords: kw, rest: v, bad_line: None }
                } else {
                    let line = v.subrange(start, p + 1);
                    if !valid_utf8(line) {
                        ScanSpec {
                            keywords: Seq::<Seq<char>>::empty(),
                            rest: Seq::<u8>::empty(),
                            bad_line: Some(line),
                        }
                    } else {
                        let t = trim(decode_utf8(line));
                        if t == "END"@ {
                            ScanSpec {
                                keywords: kw.push(t),
                                rest: v.subrange(p + 1, v.len() as int),
                                bad_line: None,
                            }
                        } else {
                            kw_scan(v, p + 1, kw.push(t))
                        }
                    }
                }
            },
        }
    }
}

/// The keyword lines read from `v`.
pub open spec fn get_kw_spec(v: Seq<u8>) -> ScanSpec {
    kw_scan(v, 0, Seq::<Seq<char>>::empty())
}

/// The keyword lines read from a byte buffer.
pub struct KwScan {
    pub keywords: Vec<Vec<char>>,
    pub rest: Vec<u8>,
    pub bad_line: Option<Vec<u8>>,
}

impl View for KwScan {
    type V = ScanSpec;

    open spec fn view(&self) -> ScanSpec {
        ScanSpec {
            keywords: self.keywords.deep_view(),
            rest: self.rest@,
            bad_line: match self.bad_line {
                Some(b) => Some(b@),
                None => None,
            },
        }
    }
}

proof fn lemma_next_newline_at(v: Seq<u8>, start: int, pos: int)
    requires
        0 <= start <= pos < v.len(),
        v[pos] == 10,
        forall|k: int| start <= k < pos ==> v[k] != 10,
    ensures
        next_newline(v, start) == Some(pos),
    decreases pos - start,
{
    if start < pos {
        lemma_next_newline_at(v, start + 1, pos);
    }
}

proof fn lemma_next_newline_none(v: Seq<u8>, start: int)
    requires
        0 <= start <= v.len(),
        forall|k: int| start <= k < v.len() ==> v[k] != 10,
    ensures
        next_newline(v, start) is None,
    decreases v.len() - start,
{
    if start < v.len() {
        lemma_next_newline_none(v, start + 1);
    }
}

/// Reads keyword lines from the start of `data`.
pub fn get_kw(data: &Vec<u8>) -> (r: KwScan)
    ensures
        r@ == get_kw_spec(data@),
{
    let len = data.len();
    let mut line: Vec<u8> = Vec::new();
    let mut kw: Vec<Vec<char>> = Vec::new();
    let mut start: usize = 0;
    let mut pos: usize = 0;
    assert(kw.deep_view() =~= Seq::<Seq<char>>::empty());
    while pos < len && kw.len() < 10
        invariant
            len == data.len(),
            start <= pos <= len,
            kw@.len() < 10 ==> get_kw_spec(data@) == kw_scan(data@, start as int, kw.deep_view()),
            kw@.len() <= 10,
            kw@.len() == 10 ==> get_kw_spec(data@) == (ScanSpec {
                keywords: kw.deep_view(),
                rest: data@.skip(start as int),
                bad_line: None,
            }),
            line@ == data@.subrange(start as int, pos as int),
            forall|k: int| start <= k < pos ==> data@[k] != 10,
        decreases len - pos,
    {
        let b = data[pos];
        if b == 10 {
            line.push(b);
            proof {
                lemma_next_newline_at(data@, start as int, pos as int);
            }
            assert(line@ =~= data@.subrange(start as int, pos + 1));
            let decoded = utf8_to_chars(&line);
            match decoded {
                None => {
                    let r = KwScan { keywords: Vec::new(), rest: Vec::new(), bad_line: Some(line) };
                    assert(r@.keywords =~= Seq::<Seq<char>>::empty());
                    assert(r@.rest =~= Seq::<u8>::empty());
                    return r;
                },
                Some(s) => {
                    let t = trim_chars(&s);
                    let end = str_chars("END");
                    let is_end = chars_eq(&t, &end);
                    let ghost before = kw.deep_view();
                    let t2 = copy_chars(&t);
                    proof {
                        lemma_chars_deep_view(t2);
                    }
                    kw.push(t2);
                    assert(kw.deep_view() =~= before.push(t@));
                    if is_end {
                        let rest = crate::text::copy_range(data, pos + 1, len);
                        return KwScan { keywords: kw, rest, bad_line: None };
                    }
                    line = Vec::new();
                    start = pos + 1;
                }
            }
        } else {
            line.push(b);
            assert(line@ =~= data@.subrange(start as int, pos + 1));
        }
        pos = pos + 1;
    }
    if kw.len() < 10 {
        proof {
            lemma_next_newline_none(data@, start as int);
        }
    }
    let rest = crate::text::copy_range(data, start, len);
    assert(rest@ =~= data@.skip(start as int));
    KwScan { keywords: kw, rest, bad_line: None }
}

fn copy_chars(v: &Vec<char>) -> (r: Vec<char>)
    ensures
        r@ == v@,
{
    let r = crate::text::copy_range(v, 0, v.len());
    assert(r@ =~= v@);
    r
}

// ---------------------------------------------------------------------------
// Checking a keyword line
// ---------------------------------------------------------------------------

/// The value types a keyword line may name.
pub open spec fn value_type_ok(t: Seq<char>) -> bool {
    ||| t == "CharacterString"@
    ||| t == "Logical"@
    ||| t == "Integer"@
    ||| t == "Real"@
    ||| t == "Complex"@
    ||| t == "Undefined"@
}

/// The outcome of checking the fields of a keyword line.
#[derive(Debug, Clone, Copy, PartialEq, Eq, Structural)]
pub enum FormatCheck {
    /// A known keyword with a known value type.
    Valid,
    /// The keyword name is refused by the keyword table (a message is printed).
    UnrecognizedKeyword,
    /// An unprocessed keyword, or an unknown value type.
    Invalid,
}

/// Checks the fields of a keyword line.
pub open spec fn format_check_spec(f: Seq<Seq<char>>) -> FormatCheck {
    match fits_keyword_class(f[0]) {
        KeywordClass::Rejected => FormatCheck::UnrecognizedKeyword,
        KeywordClass::Unprocessed => FormatCheck::Invalid,
        KeywordClass::Known => if value_type_ok(f[1]) {
            FormatCheck::Valid
        } else {
            FormatCheck::Invalid
        },
    }
}

/// Whether checking the fields reads a value type that is not there: the
/// check reads the second field unless the keyword was refused.
pub open spec fn format_check_panics(f: Seq<Seq<char>>) -> bool {
    f.len() < 2 && fits_keyword_class(f[0]) != KeywordClass::Rejected
}

fn is_value_type(t: &Vec<char>) -> (b: bool)
    ensures
        b == value_type_ok(t@),
{
    chars_eq(t, &str_chars("CharacterString")) || chars_eq(t, &str_chars("Logical")) || chars_eq(
        t,
        &str_chars("Integer"),
    ) || chars_eq(t, &str_chars("Real")) || chars_eq(t, &str_chars("Complex")) || chars_eq(
        t,
        &str_chars("Undefined"),
    )
}

/// Checks the fields of a keyword line: the name against the keyword table
/// of `fits-rs`, and the value type against the known types.
pub fn fits_format_check(f: &Vec<Vec<char>>) -> (r: FormatCheck)
    requires
        f.len() >= 1,
        !format_check_panics(f.deep_view()),
    ensures
        r == format_check_spec(f.deep_view()),
{
    assert(f.deep_view()[0] == f@[0]@);
    match keyword_class(&f[0]) {
        KeywordClass::Rejected => FormatCheck::UnrecognizedKeyword,
        KeywordClass::Unprocessed => FormatCheck::Invalid,
        KeywordClass::Known => {
            assert(f.deep_view()[1] == f@[1]@);
            if is_value_type(&f[1]) {
                FormatCheck::Valid
            } else {
                FormatCheck::Invalid
            }
        },
    }
}

// ---------------------------------------------------------------------------
// Rendering keyword lines
// ---------------------------------------------------------------------------

/// What rendering a keyword line does: write text to the FITS file, or
/// print one of the messages.
#[derive(Debug, Clone, Copy, PartialEq, Eq, Structural)]
pub enum KwEventKind {
    /// Write the event's text to the file.
    Write,
    /// Print that the last header has no data.
    LastHeaderNoData,
    /// Print that the keyword is not recognized.
    UnrecognizedKeyword,
    /// Print the line (the event's text) and that its format is not recognized.
    UnrecognizedFormat,
    /// Print that the value field is empty.
    NoElement,
    /// Print that the `NAXIS0` value does not parse, and why.
    BadNaxis(IntErrorKind),
}

/// One step of rendering: its kind and its text (empty for most messages).
pub struct KwEvent {
    pub kind: KwEventKind,
    pub text: Vec<char>,
}

/// The content of an event.
pub type EventSpec = (KwEventKind, Seq<char>);

impl View for KwEvent {
    type V = EventSpec;

    open spec fn view(&self) -> EventSpec {
        (self.kind, self.text@)
    }
}

/// The width of the `END` card for a header of `n` lines: it pads the
/// header to a whole number of 2880-byte blocks when every other card is 80
/// characters.
pub open spec fn end_width(n: nat) -> nat {
    let r = (n * 80) % 2880;
    if r != 0 {
        (2880 - (r - 80)) as nat
    } else {
        80
    }
}

/// The text of a keyword card, after `name= `.
pub open spec fn card_text(f: Seq<Seq<char>>) -> Seq<char> {
    let head = pad_right(f[0], 8) + "= "@;
    if contains_seq(f[0], "BSCALE"@) || contains_seq(f[0], "BZER0"@) {
        head + pad_right(" "@, 12) + pad_right(f[2], 10)
    } else if f[1] == "CharacterString"@ && f[2][0] == '\'' && f[2].len() <= 70 {
        if f[2].len() <= 10 {
            head + pad_right(f[2], 20) + " "@
        } else {
            head + pad_right(f[2], 70)
        }
    } else {
        head + pad_left(f[2], 20) + " "@
    }
}

/// The comment part of a card: a blank comment for a two-character comment
/// field, the comment without quotes for a longer one, and nothing
/// otherwise.
pub open spec fn comment_text(c: Seq<char>) -> Seq<char> {
    if c.len() == 2 {
        "/ "@ + pad_right(" "@, 47)
    } else if c.len() > 2 {
        "/ "@ + pad_right(remove_char(c, '\''), 47)
    } else {
        Seq::<char>::empty()
    }
}

/// A FITS card is exactly 80 characters: the laid-out fields are cut to 80
/// characters, or padded with spaces to 80.
pub open spec fn fit_card(s: Seq<char>) -> Seq<char> {
    if s.len() >= 80 {
        s.take(80)
    } else {
        s + spaces((80 - s.len()) as nat)
    }
}

/// The 80-character card for the fields of a keyword line.
pub open spec fn card(f: Seq<Seq<char>>) -> Seq<char> {
    fit_card(card_text(f) + comment_text(f[3]))
}

/// What rendering one line leads to.
pub enum LineOutcome {
    /// The line is rendered; go on with the updated flags.
    Continue { events: Seq<EventSpec>, data: bool, ext: bool },
    /// Rendering stops here with the given data, extension and error flags.
    Stop { events: Seq<EventSpec>, data: bool, ext: bool, err: bool },
    /// The line lacks a field that rendering reads.
    Panic,
}

/// Renders one keyword line of a header of `n` lines, with the data and
/// extension flags so far.
pub open spec fn line_outcome(line: Seq<char>, n: nat, data: bool, ext: bool) -> LineOutcome {
    if line == "END"@ {
        let w = end_width(n);
        if !data && !ext {
            LineOutcome::Continue {
                events: seq![
                    (KwEventKind::LastHeaderNoData, Seq::<char>::empty()),
                    (KwEventKind::Write, pad_right("END"@, (w - 1) as nat)),
                    (KwEventKind::Write, "\n"@),
                ],
                data,
                ext,
            }
        } else {
            LineOutcome::Continue {
                events: seq![(KwEventKind::Write, pad_right("END"@, w))],
                data,
                ext,
            }
        }
    } else {
        let f = split_on(line, ',');
        if format_check_panics(f) {
            LineOutcome::Panic
        } else {
            match format_check_spec(f) {
                FormatCheck::UnrecognizedKeyword => LineOutcome::Stop {
                    events: seq![
                        (KwEventKind::UnrecognizedKeyword, Seq::<char>::empty()),
                        (KwEventKind::UnrecognizedFormat, line),
                    ],
                    data: false,
                    ext: false,
                    err: false,
                },
                FormatCheck::Invalid => LineOutcome::Stop {
                    events: seq![(KwEventKind::UnrecognizedFormat, line)],
                    data: false,
                    ext: false,
                    err: false,
                },
                FormatCheck::Valid => {
                    if f.len() < 3 {
                        LineOutcome::Panic
                    } else if f[2].len() == 0 {
                        LineOutcome::Stop {
                            events: seq![(KwEventKind::NoElement, Seq::<char>::empty())],
                            data: false,
                            ext: false,
                            err: true,
                        }
                    } else if f.len() < 4 {
                        LineOutcome::Panic
                    } else {
                        let ext2 = ext || (contains_seq(f[0], "EXTEND"@) && contains_seq(
                            f[2],
                            "T"@,
                        ));
                        let events = seq![(KwEventKind::Write, card(f))];
                        if contains_seq(f[0], "NAXIS0"@) {
                            match parse_unsigned(f[2], 4294967295) {
                                Err(k) => LineOutcome::Stop {
                                    events: seq![(KwEventKind::BadNaxis(k), Seq::<char>::empty())],
                                    data: false,
                                    ext: false,
                                    err: true,
                                },
                                Ok(v) => LineOutcome::Continue {
                                    events,
                                    data: data || v != 0,
                                    ext: ext2,
                                },
                            }
                        } else {
                            LineOutcome::Continue { events, data, ext: ext2 }
                        }
                    }
                },
            }
        }
    }
}

/// What rendering a header gives: the events, and the data, extension and
/// error flags.
pub struct KwOutcome {
    pub events: Seq<EventSpec>,
    pub data: bool,
    pub ext: bool,
    pub err: bool,
}

/// Renders lines `i` up to `stop` of a header of `n` lines, from the given
/// flags, until a line stops the rendering. A line that would panic ends it
/// with the events so far.
pub open spec fn kw_run(
    lines: Seq<Seq<char>>,
    i: int,
    stop: int,
    n: nat,
    data: bool,
    ext: bool,
) -> KwOutcome
    decreases stop - i,
{
    if i < 0 || i >= stop || i >= lines.len() {
        KwOutcome { events: Seq::<EventSpec>::empty(), data, ext, err: false }
    } else {
        match line_outcome(lines[i], n, data, ext) {
            LineOutcome::Panic => KwOutcome {
                events: Seq::<EventSpec>::empty(),
                data,
                ext,
                err: false,
            },
            LineOutcome::Stop { events, data, ext, err } => KwOutcome { events, data, ext, err },
            LineOutcome::Continue { events, data, ext } => {
                let rest = kw_run(lines, i + 1, stop, n, data, ext);
                KwOutcome { events: events + rest.events, data: rest.data, ext: rest.ext, err: rest.err }
            },
        }
    }
}

/// The first line from `i` on at which rendering panics, unless a line
/// before it stops the rendering.
pub open spec fn panic_line_from(lines: Seq<Seq<char>>, i: int) -> Option<int>
    decreases lines.len() - i,
{
    if i < 0 || i >= lines.len() {
        None
    } else {
        match line_outcome(lines[i], lines.len(), false, false) {
            LineOutcome::Panic => Some(i),
            LineOutcome::Stop { .. } => None,
            LineOutcome::Continue { .. } => panic_line_from(lines, i + 1),
        }
    }
}

/// Whether rendering a line panics, stops or goes on does not depend on the
/// flags or the header's length.
proof fn lemma_line_kind_independent(line: Seq<char>, n: nat, data: bool, ext: bool, m: nat)
    ensures
        (line_outcome(line, n, data, ext) is Panic) == (line_outcome(line, m, false, false) is Panic),
        (line_outcome(line, n, data, ext) is Stop) == (line_outcome(line, m, false, false) is Stop),
{
}

/// The result of rendering a header.
pub struct KwRender {
    pub events: Vec<KwEvent>,
    pub data: bool,
    pub ext: bool,
    pub err: bool,
}

/// The events of a rendering, as content.
pub open spec fn events_view(v: Seq<KwEvent>) -> Seq<EventSpec> {
    v.map_values(|e: KwEvent| e@)
}

fn write_event(text: Vec<char>) -> (e: KwEvent)
    ensures
        e@ == (KwEventKind::Write, text@),
{
    KwEvent { kind: KwEventKind::Write, text }
}

fn notice(kind: KwEventKind) -> (e: KwEvent)
    ensures
        e@ == (kind, Seq::<char>::empty()),
{
    KwEvent { kind, text: Vec::new() }
}

fn push_str(out: &mut Vec<char>, s: &str)
    ensures
        final(out)@ == old(out)@ + s@,
{
    let c = str_chars(s);
    push_all(out, &c);
}

fn render_card(f: &Vec<Vec<char>>) -> (r: Vec<char>)
    requires
        f.len() >= 4,
        f@[2]@.len() > 0,
    ensures
        r@ == card_text(f.deep_view()),
{
    let ghost fv = f.deep_view();
    assert(fv[0] == f@[0]@ && fv[1] == f@[1]@ && fv[2] == f@[2]@);
    let mut out: Vec<char> = Vec::new();
    push_pad_right(&mut out, &f[0], 8);
    push_str(&mut out, "= ");
    let f0 = &f[0];
    let f2 = &f[2];
    if contains_chars(f0, &str_chars("BSCALE")) || contains_chars(f0, &str_chars("BZER0")) {
        let blank = str_chars(" ");
        push_pad_right(&mut out, &blank, 12);
        push_pad_right(&mut out, f2, 10);
    } else if chars_eq(&f[1], &str_chars("CharacterString")) && f2[0] == '\'' && f2.len() <= 70 {
        if f2.len() <= 10 {
            push_pad_right(&mut out, f2, 20);
            push_str(&mut out, " ");
        } else {
            push_pad_right(&mut out, f2, 70);
        }
    } else {
        push_pad_left(&mut out, f2, 20);
        push_str(&mut out, " ");
    }
    assert(out@ =~= card_text(fv));
    out
}

fn push_comment(out: &mut Vec<char>, c: &Vec<char>)
    ensures
        final(out)@ == old(out)@ + comment_text(c@),
{
    if c.len() == 2 {
        push_str(out, "/ ");
        let blank = str_chars(" ");
        push_pad_right(out, &blank, 47);
    } else if c.len() > 2 {
        push_str(out, "/ ");
        let stripped = remove_char_chars(c, '\'');
        push_pad_right(out, &stripped, 47);
    }
    assert(out@ =~= old(out)@ + comment_text(c@));
}

fn fit_card_exec(s: &Vec<char>) -> (r: Vec<char>)
    ensures
        r@ == fit_card(s@),
        r@.len() == 80,
{
    if s.len() >= 80 {
        crate::text::copy_range(s, 0, 80)
    } else {
        let mut r = crate::text::copy_range(s, 0, s.len());
        assert(r@ =~= s@);
        crate::text::push_spaces(&mut r, 80 - s.len());
        r
    }
}

/// The exec side of a line's outcome.
enum LineResult {
    Continue { data: bool, ext: bool },
    Stop { data: bool, ext: bool, err: bool },
}

fn end_width_exec(n: usize) -> (w: usize)
    requires
        n * 80 <= usize::MAX,
    ensures
        w == end_width(n as nat),
        80 <= w <= 2880,
{
    let pad = n * 80;
    let mut rem = pad % 2880;
    assert((n * 80) % 2880 == 80 * (n % 36)) by (nonlinear_arith);
    if rem != 0 {
        rem = rem - 80;
        rem = 2880 - rem;
    } else {
        rem = 80;
    }
    rem
}

/// Renders one line, appending its events.
#[verifier::rlimit(50)]
fn render_line(line: &Vec<char>, n: usize, data: bool, ext: bool, events: &mut Vec<KwEvent>) -> (r:
    LineResult)
    requires
        n * 80 <= usize::MAX,
        !(line_outcome(line@, n as nat, data, ext) is Panic),
    ensures
        match (line_outcome(line@, n as nat, data, ext), r) {
            (LineOutcome::Continue { events: ev, data: d, ext: e }, LineResult::Continue { data: d2, ext: e2 }) => {
                &&& events_view(final(events)@) == events_view(old(events)@) + ev
                &&& d2 == d
                &&& e2 == e
            },
            (LineOutcome::Stop { events: ev, data: d, ext: e, err: x }, LineResult::Stop { data: d2, ext: e2, err: x2 }) => {
                &&& events_view(final(events)@) == events_view(old(events)@) + ev
                &&& d2 == d
                &&& e2 == e
                &&& x2 == x
            },
            _ => false,
        },
{
    let ghost before = events_view(events@);
    if chars_eq(line, &str_chars("END")) {
        let w = end_width_exec(n);
        let end = str_chars("END");
        if !data && !ext {
            events.push(notice(KwEventKind::LastHeaderNoData));
            let mut t: Vec<char> = Vec::new();
            push_pad_right(&mut t, &end, w - 1);
            events.push(write_event(t));
            events.push(write_event(str_chars("\n")));
        } else {
            let mut t: Vec<char> = Vec::new();
            push_pad_right(&mut t, &end, w);
            events.push(write_event(t));
        }
        assert(events_view(events@) =~= before + match line_outcome(line@, n as nat, data, ext) {
            LineOutcome::Continue { events: ev, .. } => ev,
            _ => Seq::<EventSpec>::empty(),
        });
        return LineResult::Continue { data, ext };
    }
    let f = split_chars(line, ',');
    proof {
        lemma_split_on_nonempty(line@, ',');
    }
    let ghost fv = f.deep_view();
    assert(f@.len() == fv.len());
    let check = fits_format_check(&f);
    match check {
        FormatCheck::UnrecognizedKeyword => {
            events.push(notice(KwEventKind::UnrecognizedKeyword));
            events.push(KwEvent { kind: KwEventKind::UnrecognizedFormat, text: copy_chars(line) });
            assert(events_view(events@) =~= before + seq![
                (KwEventKind::UnrecognizedKeyword, Seq::<char>::empty()),
                (KwEventKind::UnrecognizedFormat, line@),
            ]);
            return LineResult::Stop { data: false, ext: false, err: false };
        },
        FormatCheck::Invalid => {
            events.push(KwEvent { kind: KwEventKind::UnrecognizedFormat, text: copy_chars(line) });
            assert(events_view(events@) =~= before + seq![(KwEventKind::UnrecognizedFormat, line@)]);
            return LineResult::Stop { data: false, ext: false, err: false };
        },
        FormatCheck::Valid => {},
    }
    assert(fv[2] == f@[2]@);
    if f[2].len() == 0 {
        events.push(notice(KwEventKind::NoElement));
        assert(events_view(events@) =~= before + seq![(KwEventKind::NoElement, Seq::<char>::empty())]);
        return LineResult::Stop { data: false, ext: false, err: true };
    }
    assert(fv[0] == f@[0]@ && fv[3] == f@[3]@);
    let mut ext2 = ext;
    if contains_chars(&f[0], &str_chars("EXTEND")) && contains_chars(&f[2], &str_chars("T")) {
        ext2 = true;
    }
    let mut data2 = data;
    if contains_chars(&f[0], &str_chars("NAXIS0")) {
        match parse_unsigned_chars(&f[2], 4294967295) {
            Err(k) => {
                events.push(notice(KwEventKind::BadNaxis(k)));
                assert(events_view(events@) =~= before + seq![
                    (KwEventKind::BadNaxis(k), Seq::<char>::empty()),
                ]);
                return LineResult::Stop { data: false, ext: false, err: true };
            },
            Ok(v) => {
                if v != 0 {
                    data2 = true;
                }
            },
        }
    }
    let mut text = render_card(&f);
    push_comment(&mut text, &f[3]);
    let c = fit_card_exec(&text);
    events.push(write_event(c));
    assert(events_view(events@) =~= before + seq![(KwEventKind::Write, card(fv))]);
    LineResult::Continue { data: data2, ext: ext2 }
}

/// The line at which rendering the header panics, if it does: the first
/// line, before any line that stops the rendering, that lacks a field that
/// rendering reads.
pub fn keyword_panic_line(lines: &Vec<Vec<char>>) -> (r: Option<usize>)
    ensures
        match r {
            Some(k) => panic_line_from(lines.deep_view(), 0) == Some(k as int),
            None => panic_line_from(lines.deep_view(), 0) is None,
        },
{
    let n = lines.len();
    let ghost lv = lines.deep_view();
    let mut i: usize = 0;
    while i < n
        invariant
            i <= n == lines.len() == lv.len(),
            lv == lines.deep_view(),
            panic_line_from(lv, 0) == panic_line_from(lv, i as int),
        decreases n - i,
    {
        let line = &lines[i];
        assert(lv[i as int] == line@);
        if !chars_eq(line, &str_chars("END")) {
            let f = split_chars(line, ',');
            proof {
                lemma_split_on_nonempty(line@, ',');
            }
            let ghost fv = f.deep_view();
            assert(f@.len() == fv.len());
            assert(fv[0] == f@[0]@);
            let cls = keyword_class(&f[0]);
            if f.len() < 2 && cls != KeywordClass::Rejected {
                return Some(i);
            }
            let check = fits_format_check(&f);
            if check != FormatCheck::Valid {
                return None;
            }
            if f.len() < 3 {
                return Some(i);
            }
            assert(fv[2] == f@[2]@);
            if f[2].len() == 0 {
                return None;
            }
            if f.len() < 4 {
                return Some(i);
            }
            if contains_chars(&f[0], &str_chars("NAXIS0")) {
                if parse_unsigned_chars(&f[2], 4294967295).is_err() {
                    return None;
                }
            }
        }
        i = i + 1;
    }
    None
}

/// Renders the first `stop` lines of a header of `lines.len()` lines, as
/// long as none of them panics.
pub fn parse_kw_prefix(lines: &Vec<Vec<char>>, stop: usize) -> (r: KwRender)
    requires
        stop <= lines.len(),
        lines.len() * 80 <= usize::MAX,
        match panic_line_from(lines.deep_view(), 0) {
            Some(k) => stop <= k,
            None => true,
        },
    ensures
        ({
            let o = kw_run(lines.deep_view(), 0, stop as int, lines.len() as nat, false, false);
            &&& events_view(r.events@) == o.events
            &&& r.data == o.data
            &&& r.ext == o.ext
            &&& r.err == o.err
        }),
{
    let n = lines.len();
    let ghost lv = lines.deep_view();
    let mut events: Vec<KwEvent> = Vec::new();
    let mut data = false;
    let mut ext = false;
    let mut i: usize = 0;
    while i < stop
        invariant
            i <= stop <= n == lines.len() == lv.len(),
            n * 80 <= usize::MAX,
            lv == lines.deep_view(),
            panic_line_from(lv, 0) == panic_line_from(lv, i as int),
            match panic_line_from(lv, 0) {
                Some(k) => stop <= k,
                None => true,
            },
            ({
                let o = kw_run(lv, 0, stop as int, n as nat, false, false);
                let rest = kw_run(lv, i as int, stop as int, n as nat, data, ext);
                &&& o.events == events_view(events@) + rest.events
                &&& o.data == rest.data
                &&& o.ext == rest.ext
                &&& o.err == rest.err
            }),
        decreases stop - i,
    {
        let line = &lines[i];
        assert(lv[i as int] == line@);
        proof {
            lemma_line_kind_independent(line@, n as nat, data, ext, n as nat);
        }
        let ghost pre = events_view(events@);
        let res = render_line(line, n, data, ext, &mut events);
        match res {
            LineResult::Stop { data: d, ext: e, err: x } => {
                assert(events_view(events@) =~= events_view(events@) + Seq::<EventSpec>::empty());
                return KwRender { events, data: d, ext: e, err: x };
            },
            LineResult::Continue { data: d, ext: e } => {
                data = d;
                ext = e;
            },
        }
        i = i + 1;
    }
    assert(events_view(events@) + Seq::<EventSpec>::empty() =~= events_view(events@));
    KwRender { events, data, ext, err: false }
}

/// Renders a header's keyword lines as FITS cards: the events
/// to perform in order, and the data, extension and error flags.
pub fn parse_kw(lines: &Vec<Vec<char>>) -> (r: KwRender)
    requires
        lines.len() * 80 <= usize::MAX,
        panic_line_from(lines.deep_view(), 0) is None,
    ensures
        ({
            let o = kw_run(lines.deep_view(), 0, lines.len() as int, lines.len() as nat, false, false);
            &&& events_view(r.events@) == o.events
            &&& r.data == o.data
            &&& r.ext == o.ext
            &&& r.err == o.err
        }),
        header_complete(lines.deep_view()) ==> written_len(events_view(r.events@))
            == header_blocks_len(lines.len() as nat),
        header_blocks_len(lines.len() as nat) % 2880 == 0,
{
    proof {
        if header_complete(lines.deep_view()) {
            lemma_header_fills_blocks(lines.deep_view());
        }
        lemma_header_blocks_whole(lines.len() as nat);
    }
    parse_kw_prefix(lines, lines.len())
}

proof fn lemma_header_blocks_whole(n: nat)
    ensures
        header_blocks_len(n) % 2880 == 0,
{
    assert((2880 * ((n * 80 + 2879) / 2880)) % 2880 == 0) by (nonlinear_arith);
}

/// A header rendered up to the line at which rendering panics, if any.
pub struct KwRendering {
    pub render: KwRender,
    pub panic_line: Option<usize>,
}

/// Renders a header's keyword lines, first finding the line, if any, at
/// which rendering panics for lack of a field: the lines before it are
/// rendered, and the caller fails there.
pub fn render_keywords(lines: &Vec<Vec<char>>) -> (r: KwRendering)
    requires
        lines.len() * 80 <= usize::MAX,
    ensures
        match r.panic_line {
            Some(k) => panic_line_from(lines.deep_view(), 0) == Some(k as int),
            None => panic_line_from(lines.deep_view(), 0) is None,
        },
        ({
            let stop = match r.panic_line {
                Some(k) => k as int,
                None => lines.len() as int,
            };
            let o = kw_run(lines.deep_view(), 0, stop, lines.len() as nat, false, false);
            &&& events_view(r.render.events@) == o.events
            &&& r.render.data == o.data
            &&& r.render.ext == o.ext
            &&& r.render.err == o.err
        }),
{
    let p = keyword_panic_line(lines);
    match p {
        Some(k) => {
            proof {
                lemma_panic_line_bound(lines.deep_view(), 0);
            }
            KwRendering { render: parse_kw_prefix(lines, k), panic_line: p }
        },
        None => KwRendering { render: parse_kw(lines), panic_line: p },
    }
}

proof fn lemma_panic_line_bound(lines: Seq<Seq<char>>, i: int)
    ensures
        panic_line_from(lines, i) matches Some(k) ==> i <= k < lines.len(),
    decreases lines.len() - i,
{
    if 0 <= i < lines.len() {
        lemma_panic_line_bound(lines, i + 1);
    }
}

// ---------------------------------------------------------------------------
// Data blocks and the conversion loop
// ---------------------------------------------------------------------------

/// The data array padded with spaces to a whole number of 2880-byte blocks,
/// after a final line feed is turned into a space.
pub open spec fn data_block(d: Seq<u8>) -> Seq<u8> {
    let e = if d.last() == 10 {
        d.drop_last().push(32)
    } else {
        d
    };
    let r = e.len() % 2880;
    e + Seq::new(
        if r != 0 {
            (2880 - r) as nat
        } else {
            0
        },
        |i: int| 32u8,
    )
}

/// Pads the data array for writing.
pub fn pad_data_block(data: &Vec<u8>) -> (r: Vec<u8>)
    requires
        data.len() > 0,
    ensures
        r@ == data_block(data@),
{
    let mut v = crate::text::copy_range(data, 0, data.len());
    assert(v@ =~= data@);
    let last = v.len() - 1;
    if v[last] == 10 {
        v.pop();
        v.push(32);
    }
    let ghost e = v@;
    let mut rem = v.len() % 2880;
    if rem != 0 {
        rem = 2880 - rem;
    }
    let mut k: usize = 0;
    while k < rem
        invariant
            k <= rem,
            v@ == e + Seq::new(k as nat, |i: int| 32u8),
        decreases rem - k,
    {
        v.push(32);
        k = k + 1;
        assert(v@ =~= e + Seq::new(k as nat, |i: int| 32u8));
    }
    v
}

/// What the converter does next after rendering a header.
#[derive(Debug, Clone, Copy, PartialEq, Eq, Structural)]
pub enum FitsAction {
    /// No bytes are left: the conversion ends.
    Finish,
    /// The header had an error: report it and stop.
    ReportError,
    /// Data was announced: write the rest as the data array and stop.
    WriteData,
    /// An extension follows: read and render the next header.
    NextBlock,
    /// None of the flags is set while bytes remain: the converter makes no
    /// more progress.
    Spin,
}

/// The converter's next step from the flags of the last header and the
/// number of bytes left.
pub open spec fn next_action_spec(data: bool, ext: bool, err: bool, remaining: nat) -> FitsAction {
    if remaining == 0 {
        FitsAction::Finish
    } else if err {
        FitsAction::ReportError
    } else if data {
        FitsAction::WriteData
    } else if ext {
        FitsAction::NextBlock
    } else {
        FitsAction::Spin
    }
}

/// Chooses the converter's next step.
pub fn fits_next_action(data: bool, ext: bool, err: bool, remaining: usize) -> (r: FitsAction)
    ensures
        r == next_action_spec(data, ext, err, remaining as nat),
{
    if remaining == 0 {
        FitsAction::Finish
    } else if err {
        FitsAction::ReportError
    } else if data {
        FitsAction::WriteData
    } else if ext {
        FitsAction::NextBlock
    } else {
        FitsAction::Spin
    }
}

// ---------------------------------------------------------------------------
// Laws
// ---------------------------------------------------------------------------

/// A header whose cards before `END` are 80 characters each and whose `END`
/// card closes it fills whole 2880-byte blocks: with the `END` card of
/// width `end_width(n)`, or one narrower plus a line feed.
pub proof fn lemma_end_card_fills_block(n: nat)
    requires
        n >= 1,
    ensures
        (80 * (n - 1) + end_width(n)) % 2880 == 0,
        80 <= end_width(n) <= 2880,
{
    let r = (n * 80) % 2880;
    let q = (n * 80) / 2880;
    assert(r == 80 * (n % 36) && n * 80 == 2880 * q + r && 0 <= r < 2880) by (nonlinear_arith)
        requires
            r == (n * 80) % 2880,
            q == (n * 80) / 2880,
    ;
    if r != 0 {
        assert(80 * (n - 1) + end_width(n) == 2880 * (q + 1));
        assert((2880 * (q + 1)) % 2880 == 0) by (nonlinear_arith);
    } else {
        assert(80 * (n - 1) + end_width(n) == 2880 * q);
        assert((2880 * q) % 2880 == 0) by (nonlinear_arith);
    }
}

/// The padded data array fills whole 2880-byte blocks, keeps every byte but
/// a final line feed, which becomes a space, and adds only spaces.
pub proof fn lemma_data_block_shape(d: Seq<u8>)
    requires
        d.len() > 0,
    ensures
        data_block(d).len() % 2880 == 0,
        data_block(d).len() >= d.len(),
        data_block(d).len() < d.len() + 2880,
        forall|i: int| 0 <= i < d.len() - 1 ==> #[trigger] data_block(d)[i] == d[i],
        data_block(d)[d.len() - 1] == if d.last() == 10 {
            32u8
        } else {
            d.last()
        },
        forall|i: int| d.len() <= i < data_block(d).len() ==> #[trigger] data_block(d)[i] == 32u8,
{
    let e = if d.last() == 10 {
        d.drop_last().push(32)
    } else {
        d
    };
    assert(e.len() == d.len());
    assert forall|i: int| 0 <= i < d.len() - 1 implies #[trigger] data_block(d)[i] == d[i] by {
        assert(data_block(d)[i] == e[i]);
    }
    assert(data_block(d)[d.len() - 1] == e[d.len() - 1]);
}

/// Reading keyword lines yields at most ten of them.
pub proof fn lemma_get_kw_at_most_ten(v: Seq<u8>)
    ensures
        get_kw_spec(v).keywords.len() <= 10,
{
    lemma_kw_scan_bound(v, 0, Seq::<Seq<char>>::empty());
}

/// The remaining bytes are the input after the lines read: what follows
/// the last line feed read, so that nothing read is handed on again.
pub proof fn lemma_get_kw_rest_follows_lines(v: Seq<u8>)
    ensures
        get_kw_spec(v).bad_line is None ==> exists|k: int|
            0 <= k <= v.len() && get_kw_spec(v).rest == v.skip(k) && (k == 0 || v[k - 1] == 10),
{
    lemma_kw_scan_rest(v, 0, Seq::<Seq<char>>::empty());
}

proof fn lemma_kw_scan_rest(v: Seq<u8>, start: int, kw: Seq<Seq<char>>)
    requires
        0 <= start <= v.len(),
        start == 0 || v[start - 1] == 10,
    ensures
        kw_scan(v, start, kw).bad_line is None ==> exists|k: int|
            0 <= k <= v.len() && kw_scan(v, start, kw).rest == v.skip(k) && (k == 0 || v[k - 1]
                == 10),
    decreases v.len() - start,
{
    let r = kw_scan(v, start, kw);
    if kw.len() >= 10 {
        assert(r.rest == v.skip(start));
    } else {
        match next_newline(v, start) {
            None => {
                assert(r.rest == v.skip(start));
            },
            Some(p) => {
                if start <= p < v.len() {
                    lemma_next_newline_found(v, start);
                    let line = v.subrange(start, p + 1);
                    if valid_utf8(line) {
                        let t = trim(decode_utf8(line));
                        if t == "END"@ {
                            assert(r.rest =~= v.skip(p + 1));
                        } else {
                            lemma_kw_scan_rest(v, p + 1, kw.push(t));
                        }
                    }
                } else {
                    assert(r.rest == v);
                    assert(v.skip(0) =~= v);
                }
            },
        }
    }
}

proof fn lemma_next_newline_found(v: Seq<u8>, start: int)
    ensures
        next_newline(v, start) matches Some(p) ==> v[p] == 10,
    decreases v.len() - start,
{
    if 0 <= start < v.len() && v[start] != 10 {
        lemma_next_newline_found(v, start + 1);
    }
}

proof fn lemma_kw_scan_bound(v: Seq<u8>, start: int, kw: Seq<Seq<char>>)
    requires
        kw.len() <= 10,
    ensures
        kw_scan(v, start, kw).keywords.len() <= 10,
    decreases v.len() - start,
{
    if kw.len() < 10 && start >= 0 {
        match next_newline(v, start) {
            None => {},
            Some(p) => {
                if start <= p < v.len() {
                    lemma_kw_scan_bound(v, p + 1, kw.push(trim(decode_utf8(v.subrange(start, p + 1)))));
                }
            },
        }
    }
}

/// The number of characters that the events write to the file.
pub open spec fn written_len(evs: Seq<EventSpec>) -> nat
    decreases evs.len(),
{
    if evs.len() == 0 {
        0
    } else {
        written_len(evs.drop_last()) + if evs.last().0 == KwEventKind::Write {
            evs.last().1.len()
        } else {
            0
        }
    }
}

proof fn lemma_written_len_append(a: Seq<EventSpec>, b: Seq<EventSpec>)
    ensures
        written_len(a + b) == written_len(a) + written_len(b),
    decreases b.len(),
{
    if b.len() == 0 {
        assert(a + b =~= a);
    } else {
        lemma_written_len_append(a, b.drop_last());
        assert((a + b).drop_last() =~= a + b.drop_last());
    }
}

/// Whether a line, in a header of `n` lines, is a keyword line that renders
/// as a card and lets the rendering go on.
pub open spec fn continues_as_card(line: Seq<char>, n: nat) -> bool {
    &&& line != "END"@
    &&& line_outcome(line, n, false, false) is Continue
}

/// A header whose last line, and only that one, is `END`, and whose other
/// lines all render as cards.
pub open spec fn header_complete(lines: Seq<Seq<char>>) -> bool {
    &&& lines.len() >= 1
    &&& lines.last() == "END"@
    &&& forall|k: int|
        0 <= k < lines.len() - 1 ==> #[trigger] continues_as_card(lines[k], lines.len() as nat)
}

/// The length of a header of `n` lines in whole 2880-byte blocks.
pub open spec fn header_blocks_len(n: nat) -> nat {
    2880 * ((n * 80 + 2879) / 2880)
}

/// Every card written is exactly 80 characters, whatever the flags so far.
pub proof fn lemma_card_is_80(line: Seq<char>, n: nat, data: bool, ext: bool)
    requires
        continues_as_card(line, n),
    ensures
        line_outcome(line, n, data, ext) matches LineOutcome::Continue { events, .. }
            && events.len() == 1 && events[0].0 == KwEventKind::Write && events[0].1.len() == 80
            && written_len(events) == 80,
{
    lemma_line_kind_independent(line, n, data, ext, n);
    match line_outcome(line, n, data, ext) {
        LineOutcome::Continue { events, .. } => {
            let f = split_on(line, ',');
            let t = card_text(f) + comment_text(f[3]);
            assert(events == seq![(KwEventKind::Write, card(f))]);
            assert(fit_card(t).len() == 80);
            assert(events.drop_last() =~= Seq::<EventSpec>::empty());
            assert(written_len(Seq::<EventSpec>::empty()) == 0);
        },
        _ => {},
    }
}

proof fn lemma_run_written(lines: Seq<Seq<char>>, i: int, data: bool, ext: bool)
    requires
        header_complete(lines),
        0 <= i <= lines.len() - 1,
    ensures
        written_len(
            kw_run(lines, i, lines.len() as int, lines.len() as nat, data, ext).events,
        ) == 80 * (lines.len() - 1 - i) + end_width(lines.len() as nat),
    decreases lines.len() - i,
{
    let n = lines.len() as nat;
    lemma_end_card_fills_block(n);
    let w = end_width(n);
    if i == lines.len() - 1 {
        reveal_strlit("END");
        reveal_strlit("\n");
        let o = line_outcome(lines[i], n, data, ext);
        assert(lines[i] == "END"@);
        let rest = kw_run(lines, i + 1, lines.len() as int, n, data, ext);
        assert(rest.events =~= Seq::<EventSpec>::empty());
        match o {
            LineOutcome::Continue { events, .. } => {
                if !data && !ext {
                    assert(pad_right("END"@, (w - 1) as nat).len() == w - 1);
                    let e1 = events.drop_last();
                    let e2 = e1.drop_last();
                    assert(events == seq![
                        (KwEventKind::LastHeaderNoData, Seq::<char>::empty()),
                        (KwEventKind::Write, pad_right("END"@, (w - 1) as nat)),
                        (KwEventKind::Write, "\n"@),
                    ]);
                    assert(e2 =~= seq![(KwEventKind::LastHeaderNoData, Seq::<char>::empty())]);
                    assert(e2.drop_last() =~= Seq::<EventSpec>::empty());
                    assert(written_len(Seq::<EventSpec>::empty()) == 0);
                    assert(e2.last().0 == KwEventKind::LastHeaderNoData);
                    assert(written_len(e2) == 0);
                    assert(written_len(e1) == w - 1);
                    assert(events.last().1.len() == 1);
                    assert(events.last().0 == KwEventKind::Write);
                    assert(written_len(events) == written_len(e1) + 1);
                    assert(written_len(events) == w);
                } else {
                    assert(pad_right("END"@, w).len() == w);
                    assert(events == seq![(KwEventKind::Write, pad_right("END"@, w))]);
                    assert(events.drop_last() =~= Seq::<EventSpec>::empty());
                    assert(written_len(Seq::<EventSpec>::empty()) == 0);
                    assert(events.last().0 == KwEventKind::Write);
                    assert(written_len(events) == w);
                }
                lemma_written_len_append(events, rest.events);
            },
            _ => {},
        }
    } else {
        assert(continues_as_card(lines[i], n));
        lemma_card_is_80(lines[i], n, data, ext);
        let o = line_outcome(lines[i], n, data, ext);
        match o {
            LineOutcome::Continue { events, data: d, ext: e } => {
                lemma_run_written(lines, i + 1, d, e);
                let rest = kw_run(lines, i + 1, lines.len() as int, n, d, e);
                lemma_written_len_append(events, rest.events);
            },
            _ => {},
        }
    }
}

/// A complete header is written as whole 2880-byte FITS blocks: its 80-
/// character cards, and the `END` card padding the last block.
pub proof fn lemma_header_fills_blocks(lines: Seq<Seq<char>>)
    requires
        header_complete(lines),
    ensures
        written_len(
            kw_run(lines, 0, lines.len() as int, lines.len() as nat, false, false).events,
        ) == header_blocks_len(lines.len() as nat),
        header_blocks_len(lines.len() as nat) % 2880 == 0,
{
    let n = lines.len() as nat;
    lemma_run_written(lines, 0, false, false);
    lemma_end_card_fills_block(n);
    let r = (n * 80) % 2880;
    let q = (n * 80) / 2880;
    assert(n * 80 == 2880 * q + r && 0 <= r < 2880 && r % 80 == 0) by (nonlinear_arith)
        requires
            r == (n * 80) % 2880,
            q == (n * 80) / 2880,
    ;
    if r != 0 {
        assert((n * 80 + 2879) / 2880 == q + 1) by (nonlinear_arith)
            requires
                n * 80 == 2880 * q + r,
                80 <= r < 2880,
        ;
    } else {
        assert((n * 80 + 2879) / 2880 == q) by (nonlinear_arith)
            requires
                n * 80 == 2880 * q,
        ;
    }
    assert(header_blocks_len(n) % 2880 == 0) by (nonlinear_arith)
        requires
            header_blocks_len(n) == 2880 * ((n * 80 + 2879) / 2880),
    ;
}

// ---------------------------------------------------------------------------
// Laws of the format check and of card rendering
// ---------------------------------------------------------------------------

/// For a keyword that the `fits-rs` table knows, the line passes the format
/// check exactly when its value type is one of the six FITS value types.
pub proof fn lemma_known_keyword_format_check(f: Seq<Seq<char>>)
    requires
        f.len() >= 2,
        fits_keyword_class(f[0]) == KeywordClass::Known,
    ensures
        (format_check_spec(f) == FormatCheck::Valid) <==> (f[1] == "CharacterString"@ || f[1]
            == "Logical"@ || f[1] == "Integer"@ || f[1] == "Real"@ || f[1] == "Complex"@ || f[1]
            == "Undefined"@),
        format_check_spec(f) != FormatCheck::UnrecognizedKeyword,
{
}

/// A keyword that the table does not know never passes the format check,
/// whatever its value type.
pub proof fn lemma_unknown_keyword_format_check(f: Seq<Seq<char>>)
    requires
        f.len() >= 2,
        fits_keyword_class(f[0]) != KeywordClass::Known,
    ensures
        format_check_spec(f) != FormatCheck::Valid,
        (format_check_spec(f) == FormatCheck::UnrecognizedKeyword) <==> (fits_keyword_class(f[0])
            == KeywordClass::Rejected),
{
}

/// A quoted character-string value of at most ten characters is written
/// left-aligned in twenty columns after `name= `, followed by a space and
/// the comment part: the card starts with these 31 characters, is exactly
/// 80 characters, and holds the quote-free comment in the 47 columns after
/// `/ ` (or blanks when the comment field is a pair of characters, and only
/// spaces after the value when there is no comment).
pub proof fn lemma_short_string_card(line: Seq<char>, n: nat, data: bool, ext: bool)
    requires
        line != "END"@,
        line_outcome(line, n, data, ext) is Continue,
        split_on(line, ',')[1] == "CharacterString"@,
        1 <= split_on(line, ',')[2].len() <= 10,
        split_on(line, ',')[2][0] == '\'',
        !contains_seq(split_on(line, ',')[0], "BSCALE"@),
        !contains_seq(split_on(line, ',')[0], "BZER0"@),
        split_on(line, ',')[0].len() <= 8,
    ensures
        ({
            let f = split_on(line, ',');
            let head = pad_right(f[0], 8) + "= "@ + pad_right(f[2], 20) + " "@;
            let c = remove_char(f[3], '\'');
            line_outcome(line, n, data, ext) matches LineOutcome::Continue { events, .. } && {
                &&& events.len() == 1
                &&& events[0].0 == KwEventKind::Write
                &&& events[0].1.len() == 80
                &&& head.len() == 31
                &&& events[0].1.take(31) == head
                &&& f[3].len() < 2 ==> events[0].1 == head + spaces(49)
                &&& f[3].len() == 2 ==> events[0].1 == head + "/ "@ + spaces(47)
                &&& (f[3].len() > 2 && c.len() <= 47) ==> events[0].1 == head + "/ "@
                    + pad_right(c, 47)
            }
        }),
{
    reveal_strlit("= ");
    reveal_strlit(" ");
    reveal_strlit("/ ");
    let f = split_on(line, ',');
    let head = pad_right(f[0], 8) + "= "@ + pad_right(f[2], 20) + " "@;
    let c = remove_char(f[3], '\'');
    assert(card_text(f) == head);
    assert(pad_right(f[0], 8).len() == 8);
    assert(pad_right(f[2], 20).len() == 20);
    assert(head.len() == 31);
    let t = head + comment_text(f[3]);
    if f[3].len() < 2 {
        assert(t =~= head);
        assert(fit_card(t) =~= head + spaces(49));
    } else if f[3].len() == 2 {
        assert(pad_right(" "@, 47) =~= spaces(47));
        assert(t.len() == 80);
        assert(fit_card(t) =~= t);
    } else {
        if c.len() <= 47 {
            assert(pad_right(c, 47).len() == 47);
            assert(t.len() == 80);
            assert(fit_card(t) =~= t);
        }
    }
    assert(fit_card(t).take(31) =~= head) by {
        if t.len() >= 80 {
            assert(fit_card(t) =~= t.take(80));
        } else {
            assert(fit_card(t) =~= t + spaces((80 - t.len()) as nat));
        }
    }
}

/// Whether a keyword line sets the extension flag: its keyword contains
/// `EXTEND` and its value contains `T`.
pub open spec fn sets_extension(line: Seq<char>) -> bool {
    let f = split_on(line, ',');
    &&& f.len() >= 3
    &&& contains_seq(f[0], "EXTEND"@)
    &&& contains_seq(f[2], "T"@)
}

proof fn lemma_line_ext(line: Seq<char>, n: nat, data: bool, ext: bool)
    ensures
        line_outcome(line, n, data, ext) matches LineOutcome::Continue { ext: e, .. } ==> (e == (
        ext || (line != "END"@ && sets_extension(line)))),
        line_outcome(line, n, data, ext) matches LineOutcome::Stop { ext: e, .. } ==> !e,
{
}

proof fn lemma_ext_needs_extend(
    lines: Seq<Seq<char>>,
    i: int,
    stop: int,
    n: nat,
    data: bool,
    ext: bool,
)
    ensures
        kw_run(lines, i, stop, n, data, ext).ext ==> ext || exists|k: int|
            i <= k < stop && k < lines.len() && #[trigger] sets_extension(lines[k]),
    decreases stop - i,
{
    if 0 <= i < stop && i < lines.len() {
        lemma_line_ext(lines[i], n, data, ext);
        match line_outcome(lines[i], n, data, ext) {
            LineOutcome::Continue { data: d, ext: e, .. } => {
                lemma_ext_needs_extend(lines, i + 1, stop, n, d, e);
                if kw_run(lines, i, stop, n, data, ext).ext && !ext {
                    if e {
                        assert(sets_extension(lines[i]));
                    } else {
                        let k = choose|k: int|
                            i + 1 <= k < stop && k < lines.len() && #[trigger] sets_extension(
                                lines[k],
                            );
                        assert(sets_extension(lines[k]));
                    }
                }
            },
            _ => {},
        }
    }
}

/// The extension flag of a rendered header (or of any first lines of it) is
/// set only by a line whose keyword contains `EXTEND` and whose value
/// contains `T`: a header with no such line, such as one with `EXTEND = F`,
/// has no extension.
pub proof fn lemma_extension_needs_extend_true(lines: Seq<Seq<char>>, stop: int)
    ensures
        kw_run(lines, 0, stop, lines.len() as nat, false, false).ext ==> exists|k: int|
            0 <= k < stop && k < lines.len() && #[trigger] sets_extension(lines[k]),
{
    lemma_ext_needs_extend(lines, 0, stop, lines.len() as nat, false, false);
}

proof fn lemma_complete_ext(lines: Seq<Seq<char>>, i: int, data: bool, ext: bool)
    requires
        header_complete(lines),
        0 <= i <= lines.len() - 1,
    ensures
        kw_run(lines, i, lines.len() as int, lines.len() as nat, data, ext).ext == (ext || exists|
            k: int,
        | i <= k < lines.len() - 1 && #[trigger] sets_extension(lines[k])),
    decreases lines.len() - i,
{
    let n = lines.len() as nat;
    lemma_line_ext(lines[i], n, data, ext);
    if i == lines.len() - 1 {
        assert(lines[i] == "END"@);
        assert(line_outcome(lines[i], n, data, ext) is Continue);
        let rest = kw_run(lines, i + 1, lines.len() as int, n, data, ext);
        assert(rest.ext == ext);
        assert(!exists|k: int| i <= k < lines.len() - 1 && #[trigger] sets_extension(lines[k]));
    } else {
        assert(continues_as_card(lines[i], n));
        lemma_line_kind_independent(lines[i], n, data, ext, n);
        match line_outcome(lines[i], n, data, ext) {
            LineOutcome::Continue { data: d, ext: e, .. } => {
                lemma_complete_ext(lines, i + 1, d, e);
                if exists|k: int| i <= k < lines.len() - 1 && #[trigger] sets_extension(lines[k]) {
                    let k = choose|k: int|
                        i <= k < lines.len() - 1 && #[trigger] sets_extension(lines[k]);
                    if k != i {
                        assert(sets_extension(lines[k]));
                    }
                }
                if exists|k: int| i + 1 <= k < lines.len() - 1 && #[trigger] sets_extension(
                    lines[k],
                ) {
                    let k = choose|k: int|
                        i + 1 <= k < lines.len() - 1 && #[trigger] sets_extension(lines[k]);
                    assert(sets_extension(lines[k]));
                }
            },
            _ => {},
        }
    }
}

/// A complete header has an extension exactly when one of its keyword
/// lines has a keyword containing `EXTEND` and a value containing `T`.
pub proof fn lemma_complete_header_extension(lines: Seq<Seq<char>>)
    requires
        header_complete(lines),
    ensures
        kw_run(lines, 0, lines.len() as int, lines.len() as nat, false, false).ext <==> exists|
            k: int,
        | 0 <= k < lines.len() - 1 && #[trigger] sets_extension(lines[k]),
{
    lemma_complete_ext(lines, 0, false, false);
}

/// How a keyword line is laid out as a FITS card: the keyword padded to
/// eight columns and `= `; then the value (for `BSCALE` and `BZER0`, twelve
/// blank columns and the value left-aligned in ten; for a quoted character
/// string of at most 10 characters, left-aligned in 20 columns and a space;
/// for a longer quoted string of at most 70, left-aligned in 70 columns; for
/// anything else, right-aligned in 20 columns and a space); then the
/// comment (`/ ` and 47 blank columns for a two-character comment field,
/// `/ ` and the quote-free comment left-aligned in 47 columns for a longer
/// one, nothing for a shorter one); all cut or padded with spaces to 80.
pub proof fn lemma_card_layout(line: Seq<char>, n: nat, data: bool, ext: bool)
    requires
        line != "END"@,
        line_outcome(line, n, data, ext) is Continue,
    ensures
        ({
            let f = split_on(line, ',');
            let name = pad_right(f[0], 8) + "= "@;
            let quoted = f[1] == "CharacterString"@ && f[2][0] == '\'';
            let value = if contains_seq(f[0], "BSCALE"@) || contains_seq(f[0], "BZER0"@) {
                spaces(12) + pad_right(f[2], 10)
            } else if quoted && f[2].len() <= 10 {
                pad_right(f[2], 20) + " "@
            } else if quoted && f[2].len() <= 70 {
                pad_right(f[2], 70)
            } else {
                pad_left(f[2], 20) + " "@
            };
            let comment = if f[3].len() == 2 {
                "/ "@ + spaces(47)
            } else if f[3].len() > 2 {
                "/ "@ + pad_right(remove_char(f[3], '\''), 47)
            } else {
                Seq::<char>::empty()
            };
            let s = name + value + comment;
            let written = if s.len() >= 80 {
                s.take(80)
            } else {
                s + spaces((80 - s.len()) as nat)
            };
            line_outcome(line, n, data, ext) matches LineOutcome::Continue { events, .. }
                && events == seq![(KwEventKind::Write, written)]
        }),
{
    reveal_strlit(" ");
    let f = split_on(line, ',');
    assert(pad_right(" "@, 12) =~= spaces(12));
    assert(pad_right(" "@, 47) =~= spaces(47));
    let name = pad_right(f[0], 8) + "= "@;
    let quoted = f[1] == "CharacterString"@ && f[2][0] == '\'';
    let value = if contains_seq(f[0], "BSCALE"@) || contains_seq(f[0], "BZER0"@) {
        spaces(12) + pad_right(f[2], 10)
    } else if quoted && f[2].len() <= 10 {
        pad_right(f[2], 20) + " "@
    } else if quoted && f[2].len() <= 70 {
        pad_right(f[2], 70)
    } else {
        pad_left(f[2], 20) + " "@
    };
    assert(card_text(f) =~= name + value);
}

/// Whether a keyword line announces data: its keyword contains `NAXIS0` and
/// its value reads as a non-zero `u32`.
pub open spec fn sets_data(line: Seq<char>) -> bool {
    let f = split_on(line, ',');
    &&& f.len() >= 3
    &&& contains_seq(f[0], "NAXIS0"@)
    &&& parse_unsigned(f[2], 4294967295) matches Ok(v) && v != 0
}

/// Whether a keyword line is one that rendering refuses with an error: a
/// known keyword with a known value type whose value is empty, or whose
/// `NAXIS0` value does not read as a `u32`.
pub open spec fn error_line(line: Seq<char>) -> bool {
    let f = split_on(line, ',');
    &&& line != "END"@
    &&& f.len() >= 3
    &&& format_check_spec(f) == FormatCheck::Valid
    &&& (f[2].len() == 0 || (f.len() >= 4 && contains_seq(f[0], "NAXIS0"@) && parse_unsigned(
        f[2],
        4294967295,
    ) is Err))
}

proof fn lemma_line_flags(line: Seq<char>, n: nat, data: bool, ext: bool)
    ensures
        line_outcome(line, n, data, ext) matches LineOutcome::Continue { data: d, .. } ==> (d == (
        data || (line != "END"@ && sets_data(line)))),
        line_outcome(line, n, data, ext) matches LineOutcome::Stop { data: d, err: x, .. } ==> !d
            && (x == error_line(line)),
        line_outcome(line, n, data, ext) is Continue ==> !error_line(line),
{
}

proof fn lemma_data_err_need_lines(
    lines: Seq<Seq<char>>,
    i: int,
    stop: int,
    n: nat,
    data: bool,
    ext: bool,
)
    ensures
        kw_run(lines, i, stop, n, data, ext).data ==> data || exists|k: int|
            i <= k < stop && k < lines.len() && #[trigger] sets_data(lines[k]),
        kw_run(lines, i, stop, n, data, ext).err ==> exists|k: int|
            i <= k < stop && k < lines.len() && #[trigger] error_line(lines[k]),
    decreases stop - i,
{
    if 0 <= i < stop && i < lines.len() {
        lemma_line_flags(lines[i], n, data, ext);
        match line_outcome(lines[i], n, data, ext) {
            LineOutcome::Continue { data: d, ext: e, .. } => {
                lemma_data_err_need_lines(lines, i + 1, stop, n, d, e);
                let o = kw_run(lines, i, stop, n, data, ext);
                if o.data && !data {
                    if d {
                        assert(sets_data(lines[i]));
                    } else {
                        let k = choose|k: int|
                            i + 1 <= k < stop && k < lines.len() && #[trigger] sets_data(lines[k]);
                        assert(sets_data(lines[k]));
                    }
                }
                if o.err {
                    let k = choose|k: int|
                        i + 1 <= k < stop && k < lines.len() && #[trigger] error_line(lines[k]);
                    assert(error_line(lines[k]));
                }
            },
            LineOutcome::Stop { .. } => {
                if kw_run(lines, i, stop, n, data, ext).err {
                    assert(error_line(lines[i]));
                }
            },
            _ => {},
        }
    }
}

/// The data flag of a rendered header (or of any first lines of it) is set
/// only by a line whose keyword contains `NAXIS0` and whose value is a
/// non-zero number, and the error flag only by a line that rendering
/// refuses: a known keyword with an empty value or an unreadable `NAXIS0`
/// value.
pub proof fn lemma_flags_need_lines(lines: Seq<Seq<char>>, stop: int)
    ensures
        kw_run(lines, 0, stop, lines.len() as nat, false, false).data ==> exists|k: int|
            0 <= k < stop && k < lines.len() && #[trigger] sets_data(lines[k]),
        kw_run(lines, 0, stop, lines.len() as nat, false, false).err ==> exists|k: int|
            0 <= k < stop && k < lines.len() && #[trigger] error_line(lines[k]),
{
    lemma_data_err_need_lines(lines, 0, stop, lines.len() as nat, false, false);
}

proof fn lemma_end_width_blocks(n: nat)
    requires
        n >= 1,
    ensures
        end_width(n) + 80 * (n - 1) == header_blocks_len(n),
{
    lemma_end_card_fills_block(n);
    let r = (n * 80) % 2880;
    let q = (n * 80) / 2880;
    assert(n * 80 == 2880 * q + r && 0 <= r < 2880 && r % 80 == 0) by (nonlinear_arith)
        requires
            r == (n * 80) % 2880,
            q == (n * 80) / 2880,
    ;
    if r != 0 {
        assert((n * 80 + 2879) / 2880 == q + 1) by (nonlinear_arith)
            requires
                n * 80 == 2880 * q + r,
                80 <= r < 2880,
        ;
    } else {
        assert((n * 80 + 2879) / 2880 == q) by (nonlinear_arith)
            requires
                n * 80 == 2880 * q,
        ;
    }
}

/// The events that close a header of `n` lines with the given final flags:
/// with neither data nor extension, the notice, `END` padded to one less
/// than the block remainder, and a line feed; otherwise `END` padded to the
/// block remainder.
pub open spec fn closing_events(n: nat, data: bool, ext: bool) -> Seq<EventSpec> {
    let w = (header_blocks_len(n) - 80 * (n - 1)) as nat;
    if !data && !ext {
        seq![
            (KwEventKind::LastHeaderNoData, Seq::<char>::empty()),
            (KwEventKind::Write, "END"@ + spaces((w - 4) as nat)),
            (KwEventKind::Write, "\n"@),
        ]
    } else {
        seq![(KwEventKind::Write, "END"@ + spaces((w - 3) as nat))]
    }
}

proof fn lemma_complete_events(lines: Seq<Seq<char>>, i: int, data: bool, ext: bool)
    requires
        header_complete(lines),
        0 <= i <= lines.len() - 1,
    ensures
        ({
            let n = lines.len() as nat;
            let o = kw_run(lines, i, lines.len() as int, n, data, ext);
            let m = lines.len() - 1 - i;
            &&& !o.err
            &&& o.events.len() >= m
            &&& forall|j: int|
                0 <= j < m ==> (#[trigger] o.events[j]).0 == KwEventKind::Write
                    && o.events[j].1.len() == 80
            &&& o.events.skip(m) == closing_events(n, o.data, o.ext)
        }),
    decreases lines.len() - i,
{
    let n = lines.len() as nat;
    lemma_end_width_blocks(n);
    lemma_end_card_fills_block(n);
    if i == lines.len() - 1 {
        reveal_strlit("END");
        assert(lines[i] == "END"@);
        let o = kw_run(lines, i, lines.len() as int, n, data, ext);
        let rest = kw_run(lines, i + 1, lines.len() as int, n, data, ext);
        assert(rest.events =~= Seq::<EventSpec>::empty());
        let w = end_width(n);
        assert(pad_right("END"@, (w - 1) as nat) =~= "END"@ + spaces((w - 4) as nat));
        assert(pad_right("END"@, w) =~= "END"@ + spaces((w - 3) as nat));
        assert(o.events.skip(0) =~= o.events);
        match line_outcome(lines[i], n, data, ext) {
            LineOutcome::Continue { events, .. } => {
                assert(o.events =~= events);
            },
            _ => {},
        }
    } else {
        assert(continues_as_card(lines[i], n));
        lemma_card_is_80(lines[i], n, data, ext);
        lemma_line_kind_independent(lines[i], n, data, ext, n);
        match line_outcome(lines[i], n, data, ext) {
            LineOutcome::Continue { events, data: d, ext: e } => {
                lemma_complete_events(lines, i + 1, d, e);
                let o = kw_run(lines, i, lines.len() as int, n, data, ext);
                let rest = kw_run(lines, i + 1, lines.len() as int, n, d, e);
                let m = lines.len() - 1 - i;
                assert(o.events == events + rest.events);
                assert(o.events.skip(m) =~= rest.events.skip(m - 1));
                assert forall|j: int| 0 <= j < m implies (#[trigger] o.events[j]).0
                    == KwEventKind::Write && o.events[j].1.len() == 80 by {
                    if j > 0 {
                        assert(o.events[j] == rest.events[j - 1]);
                    }
                }
            },
            _ => {},
        }
    }
}

/// A complete header is rendered without error as its keyword cards, each
/// written as 80 characters, followed by the closing `END` events: with
/// neither data nor extension announced, a notice, `END` padded with spaces
/// to one less than what fills the last 2880-byte block, and a line feed;
/// otherwise `END` padded to fill that block.
pub proof fn lemma_complete_header_events(lines: Seq<Seq<char>>)
    requires
        header_complete(lines),
    ensures
        ({
            let n = lines.len() as nat;
            let o = kw_run(lines, 0, lines.len() as int, n, false, false);
            &&& !o.err
            &&& o.events.len() >= n - 1
            &&& forall|j: int|
                0 <= j < n - 1 ==> (#[trigger] o.events[j]).0 == KwEventKind::Write
                    && o.events[j].1.len() == 80
            &&& o.events.skip(n - 1) == closing_events(n, o.data, o.ext)
        }),
{
    lemma_complete_events(lines, 0, false, false);
}

proof fn lemma_complete_data(lines: Seq<Seq<char>>, i: int, data: bool, ext: bool)
    requires
        header_complete(lines),
        0 <= i <= lines.len() - 1,
    ensures
        kw_run(lines, i, lines.len() as int, lines.len() as nat, data, ext).data == (data
            || exists|k: int| i <= k < lines.len() - 1 && #[trigger] sets_data(lines[k])),
    decreases lines.len() - i,
{
    let n = lines.len() as nat;
    lemma_line_flags(lines[i], n, data, ext);
    if i == lines.len() - 1 {
        assert(lines[i] == "END"@);
        assert(line_outcome(lines[i], n, data, ext) is Continue);
        let rest = kw_run(lines, i + 1, lines.len() as int, n, data, ext);
        assert(rest.data == data);
        assert(!exists|k: int| i <= k < lines.len() - 1 && #[trigger] sets_data(lines[k]));
    } else {
        assert(continues_as_card(lines[i], n));
        lemma_line_kind_independent(lines[i], n, data, ext, n);
        match line_outcome(lines[i], n, data, ext) {
            LineOutcome::Continue { data: d, ext: e, .. } => {
                lemma_complete_data(lines, i + 1, d, e);
                if exists|k: int| i <= k < lines.len() - 1 && #[trigger] sets_data(lines[k]) {
                    let k = choose|k: int| i <= k < lines.len() - 1 && #[trigger] sets_data(lines[k]);
                    if k != i {
                        assert(sets_data(lines[k]));
                    }
                }
                if exists|k: int| i + 1 <= k < lines.len() - 1 && #[trigger] sets_data(lines[k]) {
                    let k = choose|k: int|
                        i + 1 <= k < lines.len() - 1 && #[trigger] sets_data(lines[k]);
                    assert(sets_data(lines[k]));
                }
            },
            _ => {},
        }
    }
}

/// A complete header announces data exactly when one of its keyword lines
/// has a keyword containing `NAXIS0` and a non-zero value.
pub proof fn lemma_complete_header_data(lines: Seq<Seq<char>>)
    requires
        header_complete(lines),
    ensures
        kw_run(lines, 0, lines.len() as int, lines.len() as nat, false, false).data <==> exists|
            k: int,
        | 0 <= k < lines.len() - 1 && #[trigger] sets_data(lines[k]),
{
    lemma_complete_data(lines, 0, false, false);
}

/// The number of line feeds in `s`.
pub open spec fn count_lf(s: Seq<u8>) -> nat
    decreases s.len(),
{
    if s.len() == 0 {
        0
    } else {
        count_lf(s.drop_last()) + if s.last() == 10 {
            1nat
        } else {
            0nat
        }
    }
}

proof fn lemma_count_lf_no_lf(v: Seq<u8>, start: int, p: int)
    requires
        0 <= start <= p <= v.len(),
        forall|i: int| start <= i < p ==> v[i] != 10,
    ensures
        count_lf(v.take(p)) == count_lf(v.take(start)),
    decreases p - start,
{
    if start < p {
        lemma_count_lf_no_lf(v, start, p - 1);
        assert(v.take(p).drop_last() =~= v.take(p - 1));
    }
}

proof fn lemma_next_newline_props(v: Seq<u8>, start: int)
    requires
        0 <= start <= v.len(),
    ensures
        match next_newline(v, start) {
            Some(p) => start <= p < v.len() && v[p] == 10 && forall|i: int|
                start <= i < p ==> v[i] != 10,
            None => forall|i: int| start <= i < v.len() ==> v[i] != 10,
        },
    decreases v.len() - start,
{
    if start < v.len() && v[start] != 10 {
        lemma_next_newline_props(v, start + 1);
    }
}

proof fn lemma_kw_scan_lines(v: Seq<u8>, start: int, kw: Seq<Seq<char>>)
    requires
        0 <= start <= v.len(),
        start == 0 || v[start - 1] == 10,
        kw.len() <= 10,
        count_lf(v.take(start)) == kw.len(),
        forall|j: int| 0 <= j < kw.len() ==> kw[j] != "END"@,
    ensures
        ({
            let r = kw_scan(v, start, kw);
            r.bad_line is None ==> {
                &&& exists|k: int|
                    0 <= k <= v.len() && r.rest == v.skip(k) && count_lf(v.take(k))
                        == r.keywords.len() && (k == 0 || v[k - 1] == 10) && ((r.keywords.len()
                        < 10 && (r.keywords.len() == 0 || r.keywords.last() != "END"@))
                        ==> forall|i: int| k <= i < v.len() ==> v[i] != 10)
                &&& forall|j: int| 0 <= j < r.keywords.len() - 1 ==> r.keywords[j] != "END"@
            }
        }),
    decreases v.len() - start,
{
    let r = kw_scan(v, start, kw);
    lemma_next_newline_props(v, start);
    if kw.len() >= 10 {
        assert(r.rest == v.skip(start));
    } else {
        match next_newline(v, start) {
            None => {
                assert(r.rest == v.skip(start));
                assert(kw.len() == 0 || kw.last() != "END"@);
            },
            Some(p) => {
                let line = v.subrange(start, p + 1);
                lemma_count_lf_no_lf(v, start, p);
                assert(v.take(p + 1).drop_last() =~= v.take(p));
                if valid_utf8(line) {
                    let t = trim(decode_utf8(line));
                    if t == "END"@ {
                        assert(r.rest =~= v.skip(p + 1));
                        assert(r.keywords == kw.push(t));
                    } else {
                        let kw2 = kw.push(t);
                        assert forall|j: int| 0 <= j < kw2.len() implies kw2[j] != "END"@ by {
                            if j < kw.len() {
                                assert(kw2[j] == kw[j]);
                            }
                        }
                        lemma_kw_scan_lines(v, p + 1, kw2);
                    }
                }
            },
        }
    }
}

/// Reading keyword lines stops only at the tenth line, at a line that trims
/// to `END`, or where no line feed is left: the bytes handed back are
/// exactly those after the line feeds of the lines read (one line feed per
/// keyword line), `END` can only be the last keyword line, and when fewer
/// than ten lines were read without reaching `END`, no line feed is left.
pub proof fn lemma_get_kw_reads_whole_lines(v: Seq<u8>)
    ensures
        ({
            let r = get_kw_spec(v);
            r.bad_line is None ==> {
                &&& exists|k: int|
                    0 <= k <= v.len() && r.rest == v.skip(k) && count_lf(v.take(k))
                        == r.keywords.len() && (k == 0 || v[k - 1] == 10) && ((r.keywords.len()
                        < 10 && (r.keywords.len() == 0 || r.keywords.last() != "END"@))
                        ==> forall|i: int| k <= i < v.len() ==> v[i] != 10)
                &&& forall|j: int| 0 <= j < r.keywords.len() - 1 ==> r.keywords[j] != "END"@
            }
        }),
{
    assert(v.take(0) =~= Seq::<u8>::empty());
    lemma_kw_scan_lines(v, 0, Seq::<Seq<char>>::empty());
}

proof fn lemma_panic_line_from_shape(lines: Seq<Seq<char>>, i: int)
    requires
        0 <= i,
    ensures
        panic_line_from(lines, i) matches Some(k) ==> {
            &&& i <= k < lines.len()
            &&& lines[k] != "END"@
            &&& split_on(lines[k], ',').len() < 4
            &&& forall|j: int|
                i <= j < k ==> #[trigger] line_outcome(lines[j], lines.len(), false, false) is Continue
        },
    decreases lines.len() - i,
{
    if i < lines.len() {
        lemma_panic_line_from_shape(lines, i + 1);
        lemma_split_on_nonempty(lines[i], ',');
    }
}

/// Rendering fails only at a keyword line that lacks one of its four
/// comma-separated fields, and every line before it renders and lets the
/// rendering go on.
pub proof fn lemma_panic_line_lacks_field(lines: Seq<Seq<char>>)
    ensures
        panic_line_from(lines, 0) matches Some(k) ==> {
            &&& 0 <= k < lines.len()
            &&& lines[k] != "END"@
            &&& split_on(lines[k], ',').len() < 4
            &&& forall|j: int|
                0 <= j < k ==> #[trigger] line_outcome(lines[j], lines.len(), false, false) is Continue
        },
{
    lemma_panic_line_from_shape(lines, 0);
}

} // verus!
