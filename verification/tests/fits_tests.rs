use packet_parsers::fits::{
    fits_format_check, fits_next_action, get_kw, keyword_panic_line, pad_data_block, parse_kw,
    parse_kw_prefix, render_keywords, FitsAction, FormatCheck, KwEventKind,
};
use packet_parsers::text::IntErrorKind;

fn chars(s: &str) -> Vec<char> {
    s.chars().collect()
}

fn string(v: &[char]) -> String {
    v.iter().collect()
}

fn lines(a: &[&str]) -> Vec<Vec<char>> {
    a.iter().map(|s| chars(s)).collect()
}

#[test]
fn keyword_lines_up_to_end() {
    let data = b"SIMPLE,Logical,T,'x'\n  END \nXYZ".to_vec();
    let r = get_kw(&data);
    let kw: Vec<String> = r.keywords.iter().map(|k| string(k)).collect();
    assert_eq!(kw, vec!["SIMPLE,Logical,T,'x'", "END"]);
    assert_eq!(r.rest, b"XYZ".to_vec());
    assert_eq!(r.bad_line, None);
}

#[test]
fn keyword_lines_without_end_leave_the_tail() {
    let data = b"A\nB\nC".to_vec();
    let r = get_kw(&data);
    let kw: Vec<String> = r.keywords.iter().map(|k| string(k)).collect();
    assert_eq!(kw, vec!["A", "B"]);
    assert_eq!(r.rest, b"C".to_vec());
    let r = get_kw(&b"A\nB\n".to_vec());
    assert_eq!(r.keywords.len(), 2);
    assert!(r.rest.is_empty());
}

#[test]
fn at_most_ten_keyword_lines() {
    let mut data = Vec::new();
    for i in 0..12 {
        data.extend_from_slice(format!("K{}\n", i).as_bytes());
    }
    data.extend_from_slice(b"END\n");
    let r = get_kw(&data);
    assert_eq!(r.keywords.len(), 10);
    assert_eq!(string(&r.keywords[9]), "K9");
    assert_eq!(r.rest, b"K10\nK11\nEND\n".to_vec());
}

#[test]
fn rest_after_ten_lines() {
    let mut data = Vec::new();
    for _ in 0..10 {
        data.extend_from_slice(b"A\n");
    }
    data.push(b'Z');
    let r = get_kw(&data);
    assert_eq!(r.keywords.len(), 10);
    assert_eq!(r.rest, b"Z".to_vec());
}

#[test]
fn bad_utf8_line_reads_nothing() {
    let data = vec![b'A', b'\n', 0xff, b'\n', b'E'];
    let r = get_kw(&data);
    assert!(r.keywords.is_empty());
    assert!(r.rest.is_empty());
    assert_eq!(r.bad_line, Some(vec![0xff, b'\n']));
}

#[test]
fn format_check() {
    assert_eq!(fits_format_check(&lines(&["SIMPLE", "Logical"])), FormatCheck::Valid);
    assert_eq!(fits_format_check(&lines(&["NAXIS2", "Integer"])), FormatCheck::Valid);
    assert_eq!(fits_format_check(&lines(&["SIMPLE", "Boolean"])), FormatCheck::Invalid);
    assert_eq!(fits_format_check(&lines(&["BSCALE", "Real"])), FormatCheck::Invalid);
    assert_eq!(
        fits_format_check(&lines(&["NAXISx", "Integer"])),
        FormatCheck::UnrecognizedKeyword
    );
    assert_eq!(fits_format_check(&lines(&["NAXISx"])), FormatCheck::UnrecognizedKeyword);
}

#[test]
fn primary_header_without_data() {
    let kw = lines(&["SIMPLE,Logical,T,'conforms to FITS'", "NAXIS,Integer,0,'no data'", "END"]);
    assert_eq!(keyword_panic_line(&kw), None);
    let r = parse_kw(&kw);
    assert!(!r.data && !r.ext && !r.err);
    let texts: Vec<(KwEventKind, String)> =
        r.events.iter().map(|e| (e.kind, string(&e.text))).collect();
    assert_eq!(texts.len(), 5);
    assert_eq!(texts[0].0, KwEventKind::Write);
    assert_eq!(texts[0].1, format!("SIMPLE  = {:>20} / {:47}", "T", "conforms to FITS"));
    assert_eq!(texts[0].1.len(), 80);
    assert_eq!(texts[1].1, format!("NAXIS   = {:>20} / {:47}", "0", "no data"));
    assert_eq!(texts[2], (KwEventKind::LastHeaderNoData, String::new()));
    // Three lines: 240 characters, so END is padded to 2880 - 160 = 2720, less one for the line feed.
    assert_eq!(texts[3].1, format!("{:2719}", "END"));
    assert_eq!(texts[4].1, "\n");
    let total: usize = texts.iter().map(|t| t.1.len()).sum();
    assert_eq!(total, 2880);
}

#[test]
fn header_over_two_blocks() {
    let mut v: Vec<&str> = vec!["NAXIS,Integer,0,'x'"; 36];
    v.push("END");
    let kw = lines(&v);
    let r = parse_kw(&kw);
    assert!(!r.err);
    let written: usize = r
        .events
        .iter()
        .filter(|e| e.kind == KwEventKind::Write)
        .map(|e| e.text.len())
        .sum();
    assert_eq!(written, 5760);
    assert!(r.events.iter().take(36).all(|e| e.text.len() == 80));
}

#[test]
fn data_and_extension_flags() {
    let kw = lines(&["NAXIS0,Integer,5,''", "EXTEND,Logical,T,", "END"]);
    let r = parse_kw(&kw);
    assert!(r.data && r.ext && !r.err);
    let texts: Vec<String> = r.events.iter().map(|e| string(&e.text)).collect();
    assert_eq!(texts.len(), 3);
    assert_eq!(texts[0], format!("NAXIS0  = {:>20} / {:47}", "5", " "));
    // No comment field: the card is padded with spaces to 80 characters.
    assert_eq!(texts[1], format!("{:80}", format!("EXTEND  = {:>20} ", "T")));
    assert_eq!(texts[2], format!("{:2720}", "END"));
    let total: usize = texts.iter().map(|t| t.len()).sum();
    assert_eq!(total, 2880);
}

#[test]
fn card_layouts() {
    let kw = lines(&["OBJECT,CharacterString,'M31',c", "ORIGIN,CharacterString,'a long origin',cc"]);
    let r = parse_kw(&kw);
    let texts: Vec<String> = r.events.iter().map(|e| string(&e.text)).collect();
    assert_eq!(texts.len(), 2);
    assert_eq!(texts[0], format!("{:80}", format!("OBJECT  = {:<20} ", "'M31'")));
    // A long quoted value fills the card; the comment is cut off at 80 characters.
    assert_eq!(texts[1], format!("ORIGIN  = {:<70}", "'a long origin'"));
    assert!(texts.iter().all(|t| t.len() == 80));
}

#[test]
fn naxis0_value_must_parse() {
    let kw = lines(&["SIMPLE,Logical,T,'a'", "NAXIS0,Integer,abc,'b'", "END"]);
    let r = parse_kw(&kw);
    assert!(r.err && !r.data && !r.ext);
    assert_eq!(r.events.len(), 2);
    assert_eq!(r.events[1].kind, KwEventKind::BadNaxis(IntErrorKind::InvalidDigit));
}

#[test]
fn unrecognized_lines_stop_rendering() {
    let kw = lines(&["FOO,Logical,T,'a'", "SIMPLE,Logical,T,'b'"]);
    let r = parse_kw(&kw);
    assert!(!r.err && !r.data && !r.ext);
    assert_eq!(r.events.len(), 1);
    assert_eq!(r.events[0].kind, KwEventKind::UnrecognizedFormat);
    assert_eq!(string(&r.events[0].text), "FOO,Logical,T,'a'");
    let kw = lines(&["TDIMx,Integer,1,'a'"]);
    let r = parse_kw(&kw);
    assert_eq!(r.events[0].kind, KwEventKind::UnrecognizedKeyword);
    assert_eq!(r.events[1].kind, KwEventKind::UnrecognizedFormat);
    let kw = lines(&["SIMPLE,Logical,,'a'"]);
    let r = parse_kw(&kw);
    assert!(r.err);
    assert_eq!(r.events[0].kind, KwEventKind::NoElement);
}

#[test]
fn missing_fields_are_found_before_rendering() {
    assert_eq!(keyword_panic_line(&lines(&["SIMPLE,Logical,T,'a'", "SIMPLE,Logical"])), Some(1));
    assert_eq!(keyword_panic_line(&lines(&["SIMPLE"])), Some(0));
    assert_eq!(keyword_panic_line(&lines(&["SIMPLE,Logical,T"])), Some(0));
    assert_eq!(keyword_panic_line(&lines(&["NAXISx"])), None);
    assert_eq!(keyword_panic_line(&lines(&["FOO,Logical,T,a", "SIMPLE"])), None);
    let kw = lines(&["SIMPLE,Logical,T,'a'", "SIMPLE,Logical", "END"]);
    let r = parse_kw_prefix(&kw, 1);
    assert_eq!(r.events.len(), 1);
}

#[test]
fn data_block_padding() {
    let r = pad_data_block(&vec![1, 2, 10]);
    assert_eq!(r.len(), 2880);
    assert_eq!(&r[..3], &[1, 2, 32]);
    assert!(r[3..].iter().all(|&b| b == 32));
    let full = vec![7u8; 2880];
    assert_eq!(pad_data_block(&full), full);
    let r = pad_data_block(&vec![5u8; 2881]);
    assert_eq!(r.len(), 5760);
}

#[test]
fn next_action() {
    assert_eq!(fits_next_action(true, true, true, 0), FitsAction::Finish);
    assert_eq!(fits_next_action(true, true, true, 3), FitsAction::ReportError);
    assert_eq!(fits_next_action(true, true, false, 3), FitsAction::WriteData);
    assert_eq!(fits_next_action(false, true, false, 3), FitsAction::NextBlock);
    assert_eq!(fits_next_action(false, false, false, 3), FitsAction::Spin);
}

#[test]
fn render_keywords_stops_at_missing_field() {
    let kw = lines(&["SIMPLE,Logical,T,'a'", "NAXIS,Integer", "END"]);
    let r = render_keywords(&kw);
    assert_eq!(r.panic_line, Some(1));
    assert_eq!(r.render.events.len(), 1);
    let kw = lines(&["SIMPLE,Logical,T,'a'", "END"]);
    let r = render_keywords(&kw);
    assert_eq!(r.panic_line, None);
    assert_eq!(r.render.events.len(), 4);
    assert_eq!(string(&r.render.events[3].text), "\n");
}
