use std::collections::HashMap;

use chaintools::chain::Chain;
use chaintools::error::ChainError;
use chaintools::index::BinaryIndex;
use chaintools::reader::Reader;

const FILE: &[u8] = b"chain 100 chr1 1000 + 0 30 chrA 500 + 10 40 12\n10\t5\t5\n15\n\nchain 200 chr1 1000 + 100 120 chrB 800 - 0 20 38\n20\n\nchain 50 chr2 900 + 5 25 chrC 300 + 0 25 999\n10\t0\t5\n10\n\n";

#[test]
fn index_entries_and_text() {
    let e = BinaryIndex::index_entries(FILE).unwrap();
    assert_eq!(e.len(), 3);
    assert_eq!(e[0], (12, 0, 58));
    assert_eq!(e[1].0, 38);
    assert_eq!(e[2].0, 999);
    assert_eq!(e[2].2, FILE.len());
    let text = BinaryIndex::index_text(&e);
    let expected = format!("12\t0\t58\n38\t58\t{}\n999\t{}\t{}\n", e[1].2, e[2].1, FILE.len());
    assert_eq!(String::from_utf8(text).unwrap(), expected);
}

#[test]
fn offset_index_extract() {
    let entries = BinaryIndex::index_entries(FILE).unwrap();
    let text = BinaryIndex::index_text(&entries);
    let index = BinaryIndex::read_index(&text, &vec![38], false).unwrap();
    assert_eq!(index.len(), 1);
    let ranges = BinaryIndex::ranges_for(&index, &vec![38]).unwrap();
    let (s, e) = ranges[0];
    let (id, c) = Chain::from_range(&FILE[s as usize..e as usize]).unwrap();
    assert_eq!(id, 38);
    let full = Reader::parse(FILE).unwrap();
    assert_eq!(c.to_string(), full.get(&38).unwrap().to_string());
    assert_eq!(
        BinaryIndex::ranges_for(&index, &vec![5]).unwrap_err(),
        ChainError::MissingChain { id: 5 }
    );
    assert_eq!(
        BinaryIndex::ranges_for(&index, &vec![38, 7, 9]).unwrap_err(),
        ChainError::MissingChain { id: 7 }
    );
}

#[test]
fn every_range_parses_like_the_full_file() {
    let full = Reader::parse(FILE).unwrap();
    for (id, s, e) in BinaryIndex::index_entries(FILE).unwrap() {
        let (cid, c) = Chain::from_range(&FILE[s..e]).unwrap();
        assert_eq!(cid as u64, id);
        assert_eq!(c.to_string(), full.get(&cid).unwrap().to_string());
    }
}

#[test]
fn read_index_all_and_errors() {
    let m: HashMap<u64, (u64, u64)> =
        BinaryIndex::read_index(b"1\t0\t10\n2\t10\t20\n", &vec![], true).unwrap();
    assert_eq!(m.len(), 2);
    assert_eq!(m[&2], (10, 20));
    assert_eq!(
        BinaryIndex::read_index(b"1\t0\n", &vec![1], false).unwrap_err(),
        ChainError::MalformedIndex { line: b"1\t0".to_vec() }
    );
    assert_eq!(
        Chain::from_range(b"chain 1 2 3").unwrap_err(),
        ChainError::MalformedHeader { line: b"chain 1 2 3".to_vec() }
    );
    assert_eq!(
        BinaryIndex::index_entries(b"chain 1 a 9 + 0 1 b 9 + 0 1 x7\n1\n").unwrap_err(),
        ChainError::MalformedHeader { line: b"chain 1 a 9 + 0 1 b 9 + 0 1 x7".to_vec() }
    );
}
