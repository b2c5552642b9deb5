use std::cmp::Ordering;

use excord_lr::{
    alignment_pos_cmp, assemble_split_read, overlap, parse_cigar, splitter_order_cmp,
    BreakpointEvent, EvidenceError, EvidenceTag, SplitReadEvent,
};

fn seg(chrom: &str, start: i64, strand: i32, cigar: &str) -> SplitReadEvent {
    SplitReadEvent::new(chrom, &start, parse_cigar(cigar).unwrap(), &strand, &60, cigar)
}

fn pair(e: &BreakpointEvent) -> (String, i64, i64, i32, String, i64, i64, i32, usize) {
    (
        e.lchrom.clone(),
        e.lstart,
        e.lend,
        e.lstrand,
        e.rchrom.clone(),
        e.rstart,
        e.rend,
        e.rstrand,
        e.events_num,
    )
}

#[test]
fn genome_order_compares_chromosome_then_start() {
    let a = seg("2", 100, 1, "10S20M50S");
    let b = seg("1", 50, 1, "40S30M");
    assert_eq!(alignment_pos_cmp(&a, &b), Ordering::Greater);
    assert_eq!(alignment_pos_cmp(&b, &a), Ordering::Less);
    let c = seg("10", 5, 1, "10M");
    let d = seg("9", 1, 1, "10M");
    assert_eq!(alignment_pos_cmp(&c, &d), Ordering::Less);
    let e = seg("9", 7, 1, "10M");
    assert_eq!(alignment_pos_cmp(&d, &e), Ordering::Less);
    assert_eq!(alignment_pos_cmp(&e, &e), Ordering::Equal);
}

#[test]
fn read_order_compares_first_match_offsets() {
    let a = seg("2", 100, 1, "20S30M100S");
    let b = seg("1", 50, 1, "50S30M50S");
    assert_eq!(splitter_order_cmp(&a, &b), Ok(Ordering::Less));
    assert_eq!(splitter_order_cmp(&b, &a), Ok(Ordering::Greater));
    assert_eq!(splitter_order_cmp(&a, &a), Ok(Ordering::Equal));
    let bad = seg("1", 50, 1, "50S");
    assert_eq!(splitter_order_cmp(&a, &bad), Err(EvidenceError::MalformedCigar));
}

#[test]
fn overlap_needs_shared_bases_above_threshold() {
    assert!(overlap(&0, &100, &50, &150, 0));
    assert!(!overlap(&0, &100, &101, &200, 0));
    assert!(!overlap(&101, &200, &0, &100, 0));
    assert!(!overlap(&0, &100, &100, &200, 0));
    assert!(!overlap(&0, &100, &50, &150, 500_000));
    assert!(overlap(&0, &100, &50, &150, 499_999));
    assert!(overlap(&50, &150, &0, &100, 499_999));
    assert!(!overlap(&50, &150, &0, &100, 500_000));
    assert!(overlap(&0, &1000, &10, &20, 999_999));
    assert!(!overlap(&0, &1000, &10, &20, 1_000_000));
}

#[test]
fn breakpoint_left_is_genomically_earlier() {
    let a = seg("2", 100, 1, "10S20M50S");
    let b = seg("1", 50, -1, "40S30M");
    let v = assemble_split_read(&vec![a, b], None, 1000, false).unwrap();
    assert_eq!(v.len(), 1);
    assert_eq!(pair(&v[0]), ("1".to_string(), 50, 79, -1, "2".to_string(), 100, 119, 1, 1));
    assert_eq!(v[0].tag, EvidenceTag::SplitRead);
}

#[test]
fn segments_are_paired_in_read_order() {
    let c = seg("3", 10, 1, "90S30M30S");
    let a = seg("1", 500, 1, "20S30M100S");
    let b = seg("2", 300, 1, "50S30M50S");
    let v = assemble_split_read(&vec![c, a, b], None, 1000, false).unwrap();
    assert_eq!(v.len(), 2);
    assert_eq!(pair(&v[0]), ("1".to_string(), 500, 529, 1, "2".to_string(), 300, 329, 1, 2));
    assert_eq!(pair(&v[1]), ("2".to_string(), 300, 329, 1, "3".to_string(), 10, 39, 1, 2));
}

#[test]
fn equal_offsets_keep_their_order() {
    let a = seg("5", 900, 1, "10S20M");
    let b = seg("4", 100, 1, "10S20M");
    let v = assemble_split_read(&vec![a, b], None, 1000, false).unwrap();
    assert_eq!(v.len(), 1);
    assert_eq!(v[0].lchrom, "4");
}

#[test]
fn near_duplicate_segment_is_suppressed() {
    let p = seg("1", 2367366, 1, "100S677M");
    let s = seg("1", 2367371, 1, "105S672M");
    let kept = assemble_split_read(&vec![p, s], Some(0), 1000, false).unwrap();
    assert!(kept.is_empty());
    let p = seg("1", 2367366, 1, "100S677M");
    let s = seg("1", 2367371, 1, "105S672M");
    let all = assemble_split_read(&vec![p, s], None, 1000, false).unwrap();
    assert_eq!(all.len(), 1);
}

#[test]
fn segment_without_match_makes_the_read_malformed() {
    let a = seg("1", 10, 1, "10S20M");
    let b = seg("2", 10, 1, "30S");
    assert_eq!(
        assemble_split_read(&vec![a, b], None, 1000, false).err(),
        Some(EvidenceError::MalformedCigar)
    );
}

#[test]
fn single_clipped_segment_gives_a_marker() {
    let a = seg("1", 1000, 1, "20S30M100S");
    let v = assemble_split_read(&vec![a], None, 15, true).unwrap();
    assert_eq!(v.len(), 1);
    assert_eq!(pair(&v[0]), ("1".to_string(), 1000, 1029, 1, "1".to_string(), 1029, 1029, 1, 1));
    assert_eq!(v[0].tag, EvidenceTag::LargeInsertion);
    let a = seg("1", 1000, 1, "20S30M100S");
    assert!(assemble_split_read(&vec![a], None, 120, true).unwrap().is_empty());
}

#[test]
fn cross_chromosome_pair_marks_the_primary() {
    let p = seg("1", 1000, 1, "30M2000S");
    let s = seg("2", 5000, 1, "30S500M");
    let v = assemble_split_read(&vec![p, s], None, 1000, true).unwrap();
    assert_eq!(v.len(), 2);
    assert_eq!(v[0].tag, EvidenceTag::LargeInsertionOneAlignment);
    assert_eq!(pair(&v[0]), ("1".to_string(), 1000, 1029, 1, "1".to_string(), 1029, 1029, 1, 1));
    assert_eq!(v[1].tag, EvidenceTag::SplitRead);
}

#[test]
fn overlapping_clipped_pair_gives_two_nested_markers() {
    let a = seg("1", 1000, 1, "2000S500M");
    let b = seg("1", 1400, 1, "500M2000S");
    let v = assemble_split_read(&vec![a, b], None, 1000, true).unwrap();
    assert_eq!(v.len(), 3);
    assert_eq!(v[0].tag, EvidenceTag::LargeInsertionTwoAlignments);
    assert_eq!(pair(&v[0]), ("1".to_string(), 1000, 1400, 1, "1".to_string(), 1400, 1400, 1, 1));
    assert_eq!(pair(&v[1]), ("1".to_string(), 1000, 1499, 1, "1".to_string(), 1499, 1499, 1, 1));
    assert_eq!(v[2].tag, EvidenceTag::SplitRead);
    assert_eq!(v[2].lstart, 1000);
    assert_eq!(v[2].rstart, 1400);
}

#[test]
fn markers_are_left_out_when_not_asked_for() {
    let a = seg("1", 1000, 1, "2000S500M");
    let b = seg("1", 1400, 1, "500M2000S");
    let v = assemble_split_read(&vec![a, b], None, 1000, false).unwrap();
    assert_eq!(v.len(), 1);
    assert_eq!(v[0].tag, EvidenceTag::SplitRead);
}
