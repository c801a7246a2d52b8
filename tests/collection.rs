use chaintools::chain::Chain;
use chaintools::map::ChainMap;

fn chain(id: u32, score: u64, rsize: u64, qsize: u64) -> Chain {
    let head = format!("chain {} r {} + 0 10 q {} + 0 10 {}", score, rsize, qsize, id);
    Chain::from(head.as_bytes(), b"10\n").unwrap().1
}

fn sample() -> ChainMap {
    let mut m = ChainMap::new();
    m.insert(1, chain(1, 100, 50, 500));
    m.insert(2, chain(2, 300, 500, 50));
    m.insert(3, chain(3, 200, 100, 100));
    m
}

fn sorted(m: &ChainMap) -> Vec<u32> {
    let mut k = m.keys();
    k.sort();
    k
}

#[test]
fn insert_get_remove() {
    let mut m = sample();
    assert_eq!(m.len(), 3);
    assert_eq!(m.get(&2).unwrap().score, 300);
    m.remove(&2).insert(4, chain(4, 1, 10, 10));
    assert!(m.get(&2).is_none());
    assert_eq!(sorted(&m), vec![1, 3, 4]);
}

#[test]
fn filters() {
    let m = sample();
    assert_eq!(sorted(&m.filter_by_score(200)), vec![2, 3]);
    assert_eq!(sorted(&m.filter_ref_by_size(100)), vec![2, 3]);
    assert_eq!(sorted(&m.filter_query_by_size(100)), vec![1, 3]);
    assert_eq!(sorted(&m.filter_id(vec![3, 9])), vec![3]);
    assert_eq!(sorted(&m.filter(|c| c.score < 250)), vec![1, 3]);
    assert_eq!(m.len(), 3);
}

#[test]
fn entries_and_values() {
    let m = sample();
    let mut entries: Vec<(u32, u64)> = m.iter().into_iter().map(|(k, c)| (k, c.score)).collect();
    entries.sort();
    assert_eq!(entries, vec![(1, 100), (2, 300), (3, 200)]);
    let mut scores: Vec<u64> = m.values().into_iter().map(|c| c.score).collect();
    scores.sort();
    assert_eq!(scores, vec![100, 200, 300]);
}

#[test]
fn change_in_place() {
    let mut m = sample();
    m.get_mut(&3).unwrap().score = 7;
    assert_eq!(m.get(&3).unwrap().score, 7);
    assert!(m.get_mut(&9).is_none());
    assert_eq!(m.len(), 3);
}

#[test]
fn well_formedness_checks() {
    let mut c = chain(1, 10, 50, 50);
    assert!(c.is_well_formed());
    assert!(c.refs.is_valid());
    c.query.strand = 'x';
    assert!(!c.query.is_valid());
    c.query.strand = '-';
    assert!(c.query.is_valid());
    c.refs.end = 60;
    assert!(!c.refs.is_valid());
    assert!(!c.is_well_formed());
}
