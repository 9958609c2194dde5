use fasta_ingest::parser::{parse_lines, FastaParser, ParseError, PLACEHOLDER_ID};
use fasta_ingest::record::{Sequence, ThreadCommand};

fn split_lines(input: &[u8]) -> Vec<Vec<u8>> {
    let mut out = Vec::new();
    let mut cur = Vec::new();
    for &b in input {
        cur.push(b);
        if b == b'\n' {
            out.push(std::mem::take(&mut cur));
        }
    }
    if !cur.is_empty() {
        out.push(cur);
    }
    out
}

fn parse(input: &[u8]) -> Vec<Sequence> {
    parse_lines(&split_lines(input)).expect("valid input")
}

fn rec(id: &str, seq: &[u8]) -> Sequence {
    Sequence { seq: seq.to_vec(), id: id.to_string() }
}

#[test]
fn header_first_input_yields_one_record_per_header() {
    let got = parse(b">a\nAC\n>b\nGT\n>c\nTTT\n");
    assert_eq!(got.len(), 3);
    assert_eq!(got[0], rec("a", b"AC"));
    assert_eq!(got[1], rec("b", b"GT"));
    assert_eq!(got[2], rec("c", b"TTT"));
}

#[test]
fn blank_first_line_still_yields_placeholder() {
    let got = parse(b"\n>a\nAC\n");
    assert_eq!(got.len(), 2);
    assert_eq!(got[0], rec(PLACEHOLDER_ID, b""));
    assert_eq!(got[1], rec("a", b"AC"));
}

#[test]
fn data_before_first_header_goes_to_placeholder_record() {
    let got = parse(b"NNNN\nAA\n>a\nAC\n>b\nGT\n");
    assert_eq!(got.len(), 3);
    assert_eq!(got[0], rec(PLACEHOLDER_ID, b"NNNNAA"));
    assert_eq!(got[1], rec("a", b"AC"));
    assert_eq!(got[2], rec("b", b"GT"));
}

#[test]
fn seq_is_concatenation_of_lines_of_any_length() {
    let got = parse(b">x\nAC\nGTTACG\nA\n\nTT\n>y\nC\nGG");
    assert_eq!(got.len(), 2);
    assert_eq!(got[0], rec("x", b"ACGTTACGATT"));
    assert_eq!(got[1], rec("y", b"CGG"));
}

#[test]
fn last_line_without_terminator_keeps_all_its_bytes() {
    let got = parse(b">s\nACGT");
    assert_eq!(got.len(), 1);
    assert_eq!(got[0], rec("s", b"ACGT"));
}

#[test]
fn id_is_header_text_without_sentinel_and_terminator() {
    let got = parse(b">chr1 Homo sapiens | x=1\nA\n>\nC\n>last");
    assert_eq!(got.len(), 3);
    assert_eq!(got[0].id, "chr1 Homo sapiens | x=1");
    assert_eq!(got[1].id, "");
    assert_eq!(got[2].id, "last");
    assert_eq!(got[2].seq, b"".to_vec());
}

#[test]
fn non_ascii_id_is_decoded() {
    let got = parse(">gène α\nAC\n".as_bytes());
    assert_eq!(got[0].id, "gène α");
    assert_eq!(got[0].id.as_bytes(), "gène α".as_bytes());
}

#[test]
fn invalid_utf8_id_is_an_error() {
    let lines = split_lines(b">ok\nAC\n>bad\xff\xfe\nGT\n");
    assert_eq!(parse_lines(&lines), Err(ParseError::InvalidIdentifier));
}

#[test]
fn invalid_id_leaves_parser_unchanged() {
    let mut p = FastaParser::new();
    assert_eq!(p.feed_line(&b">a\n".to_vec()), Ok(None));
    assert_eq!(p.feed_line(&b"AC\n".to_vec()), Ok(None));
    assert_eq!(p.feed_line(&b">\xc3\x28\n".to_vec()), Err(ParseError::InvalidIdentifier));
    assert_eq!(p.feed_line(&b"GT\n".to_vec()), Ok(None));
    assert_eq!(p.finish(), rec("a", b"ACGT"));
}

#[test]
fn one_record_handed_out_per_header_plus_final_flush() {
    let lines = split_lines(b">a\nA\nC\n>b\n>c\nG\n");
    let mut p = FastaParser::new();
    let mut submitted: usize = 0;
    let mut headers: usize = 0;
    for l in &lines {
        if l[0] == b'>' {
            headers += 1;
        }
        if let Some(_) = p.feed_line(l).unwrap() {
            submitted += 1;
        }
        assert_eq!(p.submitted(), submitted);
    }
    let _last = p.finish();
    submitted += 1;
    assert_eq!(headers, 3);
    assert_eq!(submitted, headers);
    assert_eq!(submitted, parse_lines(&lines).unwrap().len());
}

#[test]
fn leading_data_adds_the_placeholder_to_the_count() {
    let lines = split_lines(b"NN\n>a\nA\n>b\n");
    let mut p = FastaParser::new();
    let mut submitted: usize = 0;
    for l in &lines {
        if let Some(_) = p.feed_line(l).unwrap() {
            submitted += 1;
        }
        assert_eq!(p.submitted(), submitted);
    }
    let last = p.finish();
    submitted += 1;
    assert_eq!(last, rec("b", b""));
    assert_eq!(submitted, 3);
    assert_eq!(submitted, parse_lines(&lines).unwrap().len());
}

#[test]
fn single_header_without_sequence_lines() {
    let got = parse(b">lonely\n");
    assert_eq!(got.len(), 1);
    assert_eq!(got[0], rec("lonely", b""));
}

#[test]
fn empty_input_yields_one_placeholder_record() {
    let got = parse(b"");
    assert_eq!(got.len(), 1);
    assert_eq!(got[0], rec(PLACEHOLDER_ID, b""));
}

#[test]
fn unwrap_takes_record_out_of_work() {
    let cmd = ThreadCommand::Work(rec("a", b"AC"));
    assert_eq!(cmd.unwrap(), rec("a", b"AC"));
}
