use chaintools::align::AlignmentRecord;
use chaintools::chain::Chain;
use chaintools::error::ChainError;
use chaintools::reader::Reader;

const HEADER: &[u8] =
    b"chain 4900 chrY 58368225 + 25985403 25985638 chr5 151006098 - 43257292 43257528 1";

fn header_err(line: &[u8]) -> ChainError {
    ChainError::MalformedHeader { line: line.to_vec() }
}

fn record_err(line: &[u8]) -> ChainError {
    ChainError::MalformedRecord { line: line.to_vec() }
}

#[test]
fn header_parse() {
    let (score, refs, query, id) = Chain::head(HEADER).unwrap();
    assert_eq!(score, 4900);
    assert_eq!(refs.chr, "chrY");
    assert_eq!(refs.size, 58368225);
    assert_eq!(refs.strand, '+');
    assert_eq!(refs.start, 25985403);
    assert_eq!(refs.end, 25985638);
    assert_eq!(query.chr, "chr5");
    assert_eq!(query.size, 151006098);
    assert_eq!(query.strand, '-');
    assert_eq!(query.start, 43257292);
    assert_eq!(query.end, 43257528);
    assert_eq!(id, 1);
}

#[test]
fn header_parse_trailing_newline() {
    let mut h = HEADER.to_vec();
    h.push(b'\n');
    let (_, _, _, id) = Chain::head(&h).unwrap();
    assert_eq!(id, 1);
}

#[test]
fn header_rejects_bad_lines() {
    let short = b"chain 4900 chrY 58368225 + 25985403 25985638 chr5 151006098 - 43257292 43257528";
    assert_eq!(Chain::head(short).unwrap_err(), header_err(short));
    let word = b"chian 4900 chrY 58368225 + 25985403 25985638 chr5 151006098 - 43257292 43257528 1";
    assert_eq!(Chain::head(word).unwrap_err(), header_err(word));
    let strand = b"chain 4900 chrY 58368225 x 25985403 25985638 chr5 151006098 - 43257292 43257528 1";
    assert_eq!(Chain::head(strand).unwrap_err(), header_err(strand));
    let num = b"chain 49a0 chrY 58368225 + 25985403 25985638 chr5 151006098 - 43257292 43257528 1";
    assert_eq!(Chain::head(num).unwrap_err(), header_err(num));
    let overflow =
        b"chain 4900 chrY 58368225 + 25985403 25985638 chr5 151006098 - 43257292 43257528 4294967296";
    assert_eq!(Chain::head(overflow).unwrap_err(), header_err(overflow));
    let span = b"chain 4900 chrY 100 + 50 200 chr5 151006098 - 43257292 43257528 1";
    assert_eq!(Chain::head(span).unwrap_err(), header_err(span));
}

#[test]
fn record_parse() {
    let recs = AlignmentRecord::parse_body(b"9\t1\t0\n").unwrap();
    assert_eq!(recs, vec![AlignmentRecord::new(9, 1, 0, false)]);
    let last = AlignmentRecord::parse_body(b"9\n").unwrap();
    assert_eq!(last, vec![AlignmentRecord::new(9, 0, 0, true)]);
    assert_eq!(AlignmentRecord::parse(b"9\t1\t0\n5\n\n"), vec![
        AlignmentRecord::new(9, 1, 0, false),
        AlignmentRecord::new(5, 0, 0, true),
    ]);
    assert_eq!(AlignmentRecord::from(b"9\t1\t0\n"), Some(AlignmentRecord::new(9, 1, 0, false)));
}

#[test]
fn record_parse_errors() {
    assert_eq!(AlignmentRecord::parse_body(b"9\tx\t0\n").unwrap_err(), record_err(b"9\tx\t0"));
    assert_eq!(AlignmentRecord::parse_body(b"9\t1\n").unwrap_err(), record_err(b"9\t1"));
    assert_eq!(
        AlignmentRecord::parse_body(b"4294967296\n").unwrap_err(),
        record_err(b"4294967296")
    );
    assert_eq!(AlignmentRecord::parse_body(b"9\n5\n").unwrap_err(), record_err(b"5\n"));
    assert_eq!(
        AlignmentRecord::parse_body(b"9\t1\t0\n7\tz\t1\n3\n").unwrap_err(),
        record_err(b"7\tz\t1")
    );
}

#[test]
fn chain_needs_terminal_record() {
    let head = b"chain 10 a 100 + 0 10 b 100 + 0 10 7";
    assert_eq!(Chain::from(head, b"9\t1\t0\n").unwrap_err(), record_err(b"9\t1\t0\n"));
    let (id, c) = Chain::from(head, b"10\n").unwrap();
    assert_eq!(id, 7);
    assert_eq!(c.alignment, vec![AlignmentRecord::new(10, 0, 0, true)]);
}

#[test]
fn chain_spans_must_add_up() {
    let head = b"chain 10 a 100 + 0 20 b 100 + 0 15 7";
    let (_, c) = Chain::from(head, b"5\t5\t0\n10\n").unwrap();
    let rsum: u64 = c.alignment.iter().map(|a| (a.size + a.dt) as u64).sum();
    let qsum: u64 = c.alignment.iter().map(|a| (a.size + a.dq) as u64).sum();
    assert_eq!(rsum, c.refs.end - c.refs.start);
    assert_eq!(qsum, c.query.end - c.query.start);
    assert_eq!(Chain::from(head, b"5\t4\t0\n10\n").unwrap_err(), record_err(b"5\t4\t0\n10\n"));
}

#[test]
fn chain_text_round_trip() {
    let text = "chain 4900 chrY 58368225 + 25985403 25985638 chr5 151006098 - 43257292 43257528 12\n9\t1\t2\n225\n\n";
    let head = b"chain 4900 chrY 58368225 + 25985403 25985638 chr5 151006098 - 43257292 43257528 12";
    let (_, c) = Chain::from(head, b"9\t1\t2\n225\n").unwrap();
    assert_eq!(c.to_string(), text);
    assert_eq!(c.to_bytes(), text.as_bytes().to_vec());
    assert_eq!(c.header(), std::str::from_utf8(head).unwrap());
    assert_eq!(c.alignment(), "9\t1\t2\n225\n\n");
    assert_eq!(c.refs.to_string(), "chrY 58368225 + 25985403 25985638");
    assert_eq!(c.alignment[0].to_string(), "9\t1\t2");
    assert_eq!(c.alignment_vec(), vec![vec![9, 1, 2], vec![225, 0, 0]]);
    assert_eq!(c.alignment_vec_str()[0], vec!["9", "1", "2"]);
    let tokens = c.header_vec();
    assert_eq!(tokens.len(), 13);
    assert_eq!(tokens[0], "chain");
    assert_eq!(tokens[9], "-");
    assert_eq!(tokens[12], "12");
    assert_eq!(c.query.to_vec(), vec!["chr5", "151006098", "-", "43257292", "43257528"]);
    let v = c.to_vec();
    assert_eq!(v.len(), 3);
    assert_eq!(v[0], tokens);
    assert_eq!(v[2], vec!["225", "0", "0"]);
}

#[test]
fn head_render_parse_identity() {
    let line = b"chrY 58368225 + 25985403 25985638";
    let parts: Vec<&[u8]> = line.split(|b| *b == b' ').collect();
    let h = chaintools::chain::ChainHead::from(&parts).unwrap();
    assert_eq!(h.to_string().as_bytes(), &line[..]);
}

const FILE: &[u8] = b"chain 100 chr1 1000 + 0 30 chrA 500 + 10 40 12\n10\t5\t5\n15\n\nchain 200 chr1 1000 + 100 120 chrB 800 - 0 20 38\n20\n\nchain 50 chr2 900 + 5 25 chrC 300 + 0 25 999\n10\t0\t5\n10\n\n";

#[test]
fn file_parse_and_render() {
    let m = Reader::parse(FILE).unwrap();
    assert_eq!(m.len(), 3);
    let mut ids = m.keys();
    ids.sort();
    assert_eq!(ids, vec![12, 38, 999]);
    let mut blocks: Vec<String> = ids.iter().map(|i| m.get(i).unwrap().to_string()).collect();
    blocks.sort();
    let text = std::str::from_utf8(FILE).unwrap();
    let mut in_file: Vec<String> =
        text.split_inclusive("\n\n").map(|s| s.to_string()).collect();
    in_file.sort();
    assert_eq!(blocks, in_file);
    assert_eq!(Reader::from_bytes(FILE).unwrap().len(), 3);
}

#[test]
fn file_parse_stops_on_malformed_chain() {
    let bad = b"chain 100 chr1 1000 + 0 30 chrA 500 + 10 40 12\n10\t5\t5\n15\n\nchain 200 chr1 1000 + 100 120 chrB 800 - 0 20 38\n21\n\n";
    assert_eq!(Reader::parse(bad).unwrap_err(), record_err(b"21\n\n"));
    let bad_head = b"chain 100 chr1 1000 + 0 30 chrA 500 + 10 40 12\n10\t5\t5\n15\n\nchain 200 chr1 1000 + 100 120 chrB 800 * 0 20 38\n20\n\n";
    assert_eq!(
        Reader::parse(bad_head).unwrap_err(),
        header_err(b"chain 200 chr1 1000 + 100 120 chrB 800 * 0 20 38")
    );
    assert_eq!(Reader::parse(b"chain 1").unwrap_err(), header_err(b"chain 1"));
}

#[test]
fn extract_by_textual_id() {
    let m = Reader::extract_bytes(FILE, &vec!["38", "999"]).unwrap();
    let mut ids = m.keys();
    ids.sort();
    assert_eq!(ids, vec![38, 999]);
    assert_eq!(Reader::extract_bytes(FILE, &vec![]).unwrap().len(), 0);
    assert_eq!(Reader::extract_bytes(FILE, &vec!["7"]).unwrap().len(), 0);
}
