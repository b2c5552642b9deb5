use excord_lr::split_read_event::normalize_chrom;
use excord_lr::{
    parse_cigar, parse_supplementary_alignment, AlignmentPos, EvidenceError, SplitReadEvent,
};

#[test]
fn split_read_segment_spans_deletions_matches_and_sequence_ops() {
    let t = parse_cigar("30M5D2=1X").unwrap();
    let s = SplitReadEvent::new("chr1", &100, t, &1, &60, "30M5D2=1X");
    assert_eq!(s.chrom, "1");
    assert_eq!(s.start, 100);
    assert_eq!(s.end, 137);
    assert_eq!(s.strand, 1);
    assert_eq!(s.mapq, 60);
    assert_eq!(s.raw_cigar, "30M5D2=1X");
    assert_eq!(s.cigar_map, t);
}

#[test]
fn alignment_pos_spans_deletions_and_matches() {
    let t = parse_cigar("30M5D2=1X").unwrap();
    let p = AlignmentPos::new("chrX", &100, t, &-1, &3, "30M5D2=1X");
    assert_eq!(p.chrom, "X");
    assert_eq!(p.end, 134);
    assert_eq!(p.strand, -1);
}

#[test]
fn segment_end_not_before_start_with_a_reference_base() {
    let t = parse_cigar("1M").unwrap();
    let s = SplitReadEvent::new("7", &42, t, &1, &0, "1M");
    assert!(s.end >= s.start);
    assert_eq!(s.end, 42);
}

#[test]
fn chromosome_prefix_is_stripped_once() {
    assert_eq!(normalize_chrom("chr1"), "1");
    assert_eq!(normalize_chrom("2"), "2");
    assert_eq!(normalize_chrom("ch"), "ch");
    assert_eq!(normalize_chrom("chrchr1"), "chr1");
    assert_eq!(normalize_chrom("chr"), "");
}

#[test]
fn supplementary_descriptor_is_parsed() {
    let s = parse_supplementary_alignment("chr2,101,-,10S40M,60,3").unwrap();
    assert_eq!(s.chrom, "2");
    assert_eq!(s.start, 100);
    assert_eq!(s.end, 139);
    assert_eq!(s.strand, -1);
    assert_eq!(s.mapq, 60);
    assert_eq!(s.raw_cigar, "10S40M");
    assert_eq!(s.cigar_map.soft_clip, 10);
}

#[test]
fn supplementary_descriptor_with_signs() {
    let s = parse_supplementary_alignment("chr2,+5,+,10M,+60,-1").unwrap();
    assert_eq!(s.start, 4);
    assert_eq!(s.mapq, 60);
    assert_eq!(s.strand, 1);
}

#[test]
fn descriptor_with_five_fields_is_invalid() {
    assert_eq!(
        parse_supplementary_alignment("chr2,500,+,60S40M,60").err(),
        Some(EvidenceError::InvalidSupplementaryField)
    );
}

#[test]
fn descriptor_errors_by_field() {
    let err = |s: &str| parse_supplementary_alignment(s).err();
    assert_eq!(err("chr2,x,+,10M,60,0"), Some(EvidenceError::InvalidSupplementaryField));
    assert_eq!(err("chr2,5,*,10M,60,0"), Some(EvidenceError::UnknownStrandSymbol));
    assert_eq!(err("chr2,5,+,10Q,60,0"), Some(EvidenceError::MalformedCigar));
    assert_eq!(err("chr2,5,+,10M,256,0"), Some(EvidenceError::InvalidSupplementaryField));
    assert_eq!(err("chr2,5,+,10M,-1,0"), Some(EvidenceError::InvalidSupplementaryField));
    assert_eq!(err("chr2,5,+,10M,60,nm"), Some(EvidenceError::InvalidSupplementaryField));
    assert_eq!(err("chr2,5,+,10M,60,0,7"), Some(EvidenceError::InvalidSupplementaryField));
    assert_eq!(err(""), Some(EvidenceError::InvalidSupplementaryField));
    assert_eq!(
        err("chr2,-9223372036854775808,+,10M,60,0"),
        Some(EvidenceError::InvalidSupplementaryField)
    );
    assert_eq!(
        err("chr2,9223372036854775807,+,10M,60,0"),
        Some(EvidenceError::InvalidSupplementaryField)
    );
}
