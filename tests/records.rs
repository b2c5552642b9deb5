use excord_lr::record::supplementary_segments;
use excord_lr::{
    passes_filters, process_record, AlignmentRecord, BreakpointEvent, CigarKind, CigarOp,
    EvidenceConfig, EvidenceError, EvidenceTag,
};

use CigarKind::{Del, Match, SoftClip};

fn ops(list: &[(CigarKind, u32)]) -> Vec<CigarOp> {
    list.iter().map(|&(kind, len)| CigarOp { kind, len }).collect()
}

fn config() -> EvidenceConfig {
    EvidenceConfig {
        min_mapq: 1,
        exclude_flag: 1796,
        exclude_secondary: false,
        exclude_unmapped: false,
        indel_min: 50,
        merge_min: 5,
        ins_clip_min: 1000,
        max_overlap_ppm: None,
        max_supp_alignm: 4,
        split_only: false,
    }
}

fn record(contig: &str, pos: i64, cigar: Vec<CigarOp>, sa: Option<&str>) -> AlignmentRecord {
    AlignmentRecord {
        contig: contig.to_string(),
        pos,
        strand: 1,
        mapq: 60,
        flags: 0,
        cigar,
        sa: sa.map(|s| s.to_string()),
        qname: "read1".to_string(),
    }
}

fn fields(e: &BreakpointEvent) -> (String, i64, i64, String, i64, i64, usize, EvidenceTag) {
    (e.lchrom.clone(), e.lstart, e.lend, e.rchrom.clone(), e.rstart, e.rend, e.events_num, e.tag)
}

#[test]
fn clipped_single_segment_read_gives_one_marker() {
    let mut cfg = config();
    cfg.ins_clip_min = 15;
    let c = ops(&[(SoftClip, 20), (Match, 30), (SoftClip, 100)]);
    let v = process_record(&record("chr1", 1000, c.clone(), None), &cfg).unwrap();
    assert_eq!(v.len(), 1);
    assert_eq!(
        fields(&v[0]),
        ("1".to_string(), 1000, 1029, "1".to_string(), 1029, 1029, 1, EvidenceTag::LargeInsertion)
    );
    let w = process_record(&record("chr1", 1000, c, Some("")), &cfg).unwrap();
    assert_eq!(w.len(), 1);
    assert_eq!(w[0].tag, EvidenceTag::LargeInsertion);
}

#[test]
fn split_only_leaves_out_markers_and_indels() {
    let mut cfg = config();
    cfg.ins_clip_min = 15;
    cfg.split_only = true;
    let c = ops(&[(SoftClip, 20), (Match, 30), (Del, 100), (Match, 30), (SoftClip, 100)]);
    assert!(process_record(&record("chr1", 1000, c, None), &cfg).unwrap().is_empty());
}

#[test]
fn supplementary_on_earlier_chromosome_is_left_interval() {
    let c = ops(&[(SoftClip, 10), (Match, 20), (SoftClip, 50)]);
    let v = process_record(&record("chr2", 100, c, Some("chr1,51,+,40S30M,60,0;")), &config())
        .unwrap();
    assert_eq!(v.len(), 1);
    assert_eq!(
        fields(&v[0]),
        ("1".to_string(), 50, 79, "2".to_string(), 100, 119, 1, EvidenceTag::SplitRead)
    );
}

#[test]
fn bad_descriptor_is_skipped_and_others_kept() {
    let c = ops(&[(SoftClip, 20), (Match, 30), (SoftClip, 50)]);
    let sa = "chr2,500,+,60S40M,60;chr3,700,+,60S40M,60,0;";
    let v = process_record(&record("chr1", 1000, c, Some(sa)), &config()).unwrap();
    assert_eq!(v.len(), 1);
    assert_eq!(
        fields(&v[0]),
        ("1".to_string(), 1000, 1029, "3".to_string(), 699, 738, 1, EvidenceTag::SplitRead)
    );
}

#[test]
fn too_many_supplementaries_keep_only_indels() {
    let mut cfg = config();
    cfg.max_supp_alignm = 0;
    let c = ops(&[(Match, 10), (Del, 60), (Match, 10)]);
    let rec = record("chr1", 1000, c, Some("chr3,700,+,60S40M,60,0;"));
    assert_eq!(
        supplementary_segments(&rec, 0).err(),
        Some(EvidenceError::ExcessSupplementaryCount)
    );
    let v = process_record(&rec, &cfg).unwrap();
    assert_eq!(v.len(), 1);
    assert_eq!(
        fields(&v[0]),
        ("1".to_string(), 1000, 1010, "1".to_string(), 1070, 1080, 1, EvidenceTag::AlignmentEvent)
    );
}

#[test]
fn supplementary_segments_count_only_nonempty_descriptors() {
    let rec = record("chr1", 1000, ops(&[(Match, 10)]), Some("chr3,700,+,60S40M,60,0;;chr4,1,-,5M,0,0;"));
    let s = supplementary_segments(&rec, 2).unwrap();
    assert_eq!(s.len(), 2);
    assert_eq!(s[0].chrom, "3");
    assert_eq!(s[1].chrom, "4");
    assert_eq!(s[1].strand, -1);
    assert_eq!(
        supplementary_segments(&rec, 1).err(),
        Some(EvidenceError::ExcessSupplementaryCount)
    );
}

#[test]
fn deletions_are_reported_after_split_reads() {
    let c = ops(&[(SoftClip, 5), (Match, 10), (Del, 60), (Match, 10)]);
    let v = process_record(&record("chr1", 1000, c, Some("chr3,700,+,40S30M,60,0")), &config())
        .unwrap();
    assert_eq!(v.len(), 2);
    assert_eq!(v[0].tag, EvidenceTag::SplitRead);
    assert_eq!(
        fields(&v[1]),
        ("1".to_string(), 1000, 1010, "1".to_string(), 1070, 1080, 1, EvidenceTag::AlignmentEvent)
    );
}

#[test]
fn primary_without_match_is_malformed() {
    let c = ops(&[(SoftClip, 30), (Del, 60)]);
    assert_eq!(
        process_record(&record("chr1", 1000, c, None), &config()).err(),
        Some(EvidenceError::MalformedCigar)
    );
}

#[test]
fn supplementary_with_bad_cigar_is_malformed() {
    let c = ops(&[(Match, 30)]);
    assert_eq!(
        process_record(&record("chr1", 1000, c, Some("chr3,700,+,40Q,60,0")), &config()).err(),
        Some(EvidenceError::MalformedCigar)
    );
}

#[test]
fn position_beyond_i64_is_refused() {
    let c = ops(&[(Match, 30)]);
    assert_eq!(
        process_record(&record("chr1", i64::MAX, c, None), &config()).err(),
        Some(EvidenceError::PositionOutOfRange)
    );
}

#[test]
fn filters_follow_flags_and_quality() {
    let mut cfg = config();
    let mut rec = record("chr1", 1000, ops(&[(Match, 30)]), None);
    assert!(passes_filters(&rec, &cfg));
    rec.flags = 0x100;
    assert!(!passes_filters(&rec, &cfg));
    cfg.exclude_flag = 0;
    assert!(passes_filters(&rec, &cfg));
    cfg.exclude_secondary = true;
    assert!(!passes_filters(&rec, &cfg));
    rec.flags = 0x4;
    assert!(passes_filters(&rec, &cfg));
    cfg.exclude_unmapped = true;
    assert!(!passes_filters(&rec, &cfg));
    rec.flags = 0;
    rec.mapq = 0;
    assert!(!passes_filters(&rec, &cfg));
}
