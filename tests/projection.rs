use chaintools::blocks::{BlockSide, ChainBlock};
use chaintools::chain::Chain;
use chaintools::error::ChainError;
use chaintools::interval::Interval;
use chaintools::project::{CdsSpan, RelThreshold};

fn iv(name: &str, s: u64, e: u64) -> Interval {
    Interval { name: Some(name.to_string()), chrom: None, start: Some(s), end: Some(e) }
}

fn chain(head: &str, body: &str) -> Chain {
    Chain::from(head.as_bytes(), body.as_bytes()).unwrap().1
}

const ZERO: RelThreshold = RelThreshold { num: 0, den: 1 };

#[test]
fn single_block_codirected() {
    let c = chain("chain 1 chr1 1000 + 100 150 chr2 5000 + 1000 1050 1", "50\n");
    let mut v = vec![iv("a", 120, 140)];
    let out = c.map_through(&mut v, 0, ZERO, false).unwrap();
    assert_eq!(out[0].name.as_deref(), Some("a"));
    assert_eq!(out[0].chrom.as_deref(), Some("chr2"));
    assert_eq!((out[0].start, out[0].end), (Some(1020), Some(1040)));
}

#[test]
fn single_block_antiparallel() {
    let c = chain("chain 1 chr1 1000 + 100 150 chr2 10000 - 1000 1050 1", "50\n");
    let mut v = vec![iv("a", 120, 140)];
    let out = c.map_through(&mut v, 0, ZERO, false).unwrap();
    assert_eq!((out[0].start, out[0].end), (Some(8960), Some(8980)));
}

#[test]
fn gap_internal_endpoint_crop() {
    let c = chain("chain 1 chr1 1000 + 100 300 chr2 5000 + 1000 1100 1", "50\t100\t0\n50\n");
    let mut v = vec![iv("a", 160, 170)];
    let out = c.map_through(&mut v, 0, ZERO, false).unwrap();
    assert_eq!((out[0].start, out[0].end), (Some(1050), Some(1050)));
    let out = c.map_through(&mut v, 0, ZERO, true).unwrap();
    assert_eq!((out[0].start, out[0].end), (None, None));
}

#[test]
fn gap_threshold_boundary() {
    // gap of 100 reference and 20 query bases after the first block
    let c = chain("chain 1 chr1 1000 + 100 300 chr2 5000 + 1000 1120 1", "50\t100\t20\n50\n");
    // start at 200: 50 bases before the gap's end; end at 260 inside block 2
    let mut v = vec![iv("a", 200, 260)];
    let crop = c.map_through(&mut v, 49, ZERO, false).unwrap();
    assert_eq!(crop[0].start, Some(1050));
    let at_abs = c.map_through(&mut v, 50, ZERO, false).unwrap();
    assert_eq!(at_abs[0].start, Some(1070 - 50));
    // relative threshold: length 60, 5/6 of it is exactly 50
    let at_rel = c.map_through(&mut v, 0, RelThreshold { num: 5, den: 6 }, false).unwrap();
    assert_eq!(at_rel[0].start, Some(1020));
    let below_rel = c.map_through(&mut v, 0, RelThreshold { num: 4, den: 6 }, false).unwrap();
    assert_eq!(below_rel[0].start, Some(1050));
    assert_eq!(crop[0].end, Some(1080));
}

#[test]
fn endpoints_outside_chain_and_capping() {
    let c = chain("chain 1 chr1 1000 + 100 150 chr2 1060 + 1000 1050 1", "50\n");
    let mut v = vec![iv("a", 90, 170)];
    let far = c.map_through(&mut v, 0, ZERO, false).unwrap();
    assert_eq!((far[0].start, far[0].end), (Some(1000), Some(1050)));
    let near = c.map_through(&mut v, 100, ZERO, false).unwrap();
    assert_eq!((near[0].start, near[0].end), (Some(990), Some(1050)));
    for p in near.iter().chain(far.iter()) {
        assert!(p.start.unwrap() <= 1060 && p.end.unwrap() <= 1060);
    }
    let mut outside = vec![iv("b", 10, 20)];
    let none = c.map_through(&mut outside, 100, ZERO, false).unwrap();
    assert_eq!((none[0].start, none[0].end), (None, None));
}

#[test]
fn nested_and_overlapping_intervals_are_all_projected() {
    let c = chain(
        "chain 1 chr1 1000 + 0 100 chr2 5000 + 0 100 1",
        "20\t0\t0\n20\t0\t0\n20\t0\t0\n20\t0\t0\n20\n",
    );
    let mut v = vec![iv("inner", 30, 35), iv("outer", 5, 95), iv("late", 60, 70), iv("mid", 25, 65)];
    let out = c.map_through(&mut v, 0, ZERO, false).unwrap();
    let names: Vec<&str> = v.iter().map(|i| i.name.as_deref().unwrap()).collect();
    assert_eq!(names, vec!["outer", "mid", "inner", "late"]);
    for (i, p) in v.iter().zip(out.iter()) {
        assert_eq!(p.name, i.name);
        assert_eq!((p.start, p.end), (i.start, i.end));
    }
}

#[test]
fn projection_input_errors() {
    let c = chain("chain 1 chr1 1000 + 100 150 chr2 5000 + 1000 1050 1", "50\n");
    let mut empty: Vec<Interval> = vec![];
    assert_eq!(c.map_through(&mut empty, 0, ZERO, false).unwrap_err(), ChainError::EmptyInput);
    let mut unnamed = vec![Interval { name: None, chrom: None, start: Some(1), end: Some(2) }];
    assert_eq!(
        c.map_through(&mut unnamed, 0, ZERO, false).unwrap_err(),
        ChainError::InputMissingField
    );
    let mut reversed = vec![iv("r", 5, 1)];
    assert_eq!(c.alignment_cov(&mut reversed).unwrap_err(), ChainError::InputMissingField);
}

#[test]
fn coverage_counts_aligned_bases() {
    let c = chain("chain 1 chr1 1000 + 100 300 chr2 5000 + 1000 1100 1", "50\t100\t0\n50\n");
    let mut v = vec![iv("all", 90, 310), iv("left", 90, 200), iv("right", 200, 310)];
    let cov = c.alignment_cov(&mut v).unwrap();
    let get = |n: &str| cov.iter().find(|(k, _)| k.as_deref() == Some(n)).unwrap().1;
    assert_eq!(get("all"), 100);
    assert_eq!(get("left") + get("right"), get("all"));
    assert_eq!(get("left"), 50);
}

#[test]
fn blocks_in_order_with_gaps() {
    let c = chain("chain 1 chr1 1000 + 100 300 chr2 5000 - 1000 1120 1", "50\t100\t20\n50\n");
    let b = c.to_blocks(BlockSide::Both, true);
    assert_eq!(b.len(), 3);
    match &b[0] {
        ChainBlock::DoubleSided { id, r_start, r_end, q_start, q_end } => {
            assert_eq!(id, "1");
            assert_eq!((*r_start, *r_end), (100, 150));
            assert_eq!((*q_start, *q_end), (3950, 4000));
        }
        _ => panic!("expected a two-sided block"),
    }
    match &b[1] {
        ChainBlock::DoubleSided { id, r_start, r_end, q_start, q_end } => {
            assert_eq!(id, "1_2");
            assert_eq!(r_end - r_start, 100);
            assert_eq!(q_end - q_start, 20);
        }
        _ => panic!("expected a two-sided block"),
    }
    let r = c.to_blocks(BlockSide::Ref, false);
    assert_eq!(r.len(), 2);
    match &r[1] {
        ChainBlock::OneSided { id, start, end } => {
            assert_eq!(id, "2");
            assert_eq!((*start, *end), (250, 300));
        }
        _ => panic!("expected a one-sided block"),
    }
}

#[test]
fn intersect_keeps_overlapping_prefix() {
    let c = chain("chain 1 chr1 1000 + 100 150 chr2 5000 + 1000 1050 1", "50\n");
    let v = vec![iv("a", 10, 90), iv("b", 90, 110), iv("c", 140, 160), iv("d", 150, 170), iv("e", 120, 130)];
    let kept = c.intersect_to_vector(&v, true);
    let names: Vec<&str> = kept.iter().map(|i| i.name.as_deref().unwrap()).collect();
    assert_eq!(names, vec!["b", "c"]);
}

#[test]
fn intersect_cds_skips_records_without_coding_span() {
    let c = chain("chain 1 chr1 1000 + 100 150 chr2 5000 + 1000 1050 1", "50\n");
    let v = vec![
        CdsSpan { format: 12, thick_start: Some(10), thick_end: Some(90) },
        CdsSpan { format: 6, thick_start: Some(500), thick_end: Some(600) },
        CdsSpan { format: 12, thick_start: Some(95), thick_end: Some(120) },
        CdsSpan { format: 12, thick_start: None, thick_end: None },
        CdsSpan { format: 12, thick_start: Some(150), thick_end: Some(160) },
        CdsSpan { format: 12, thick_start: Some(120), thick_end: Some(130) },
    ];
    assert_eq!(c.intersect_to_cds_vector(&v, true), vec![2]);
    assert_eq!(c.intersect_to_cds_vector(&v, false), vec![]);
}

#[test]
fn interval_length() {
    assert_eq!(iv("a", 3, 10).length(), Some(7));
    assert_eq!(iv("a", 10, 3).length(), None);
    assert_eq!(Interval::new().length(), None);
}

#[test]
fn sort_keeps_order_of_ties() {
    let c = chain("chain 1 chr1 1000 + 100 150 chr2 5000 + 1000 1050 1", "50\n");
    let mut v = vec![iv("b", 120, 130), iv("t1", 110, 115), iv("a", 100, 140), iv("t2", 110, 115), iv("t3", 110, 115)];
    c.map_through(&mut v, 0, ZERO, false).unwrap();
    let names: Vec<&str> = v.iter().map(|i| i.name.as_deref().unwrap()).collect();
    assert_eq!(names, vec!["a", "t1", "t2", "t3", "b"]);
}
