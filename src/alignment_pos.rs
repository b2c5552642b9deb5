use vstd::prelude::*;

use crate::cigar::CigarTotals;
use crate::split_read_event::{copy_text, normalize_chrom, strip_chr};

verus! {

/// The reference bases that an alignment position spans: deletions and matches.
pub open spec fn pos_span(t: CigarTotals) -> int {
    t.del + t.matched
}

/// A primary alignment's position on the reference.
#[derive(Debug)]
pub struct AlignmentPos {
    pub chrom: String,
    pub start: i64,
    /// Inclusive: the last reference base that the alignment covers.
    pub end: i64,
    pub cigar_map: CigarTotals,
    pub strand: i32,
    pub mapq: u8,
    pub raw_cigar: String,
}

impl AlignmentPos {
    pub fn new(
        chrom: &str,
        start: &i64,
        cigar_map: CigarTotals,
        strand: &i32,
        mapq: &u8,
        cigar_string: &str,
    ) -> (r: AlignmentPos)
        requires
            i64::MIN <= *start + pos_span(cigar_map) - 1 <= i64::MAX,
        ensures
            r.chrom@ == strip_chr(chrom@),
            r.start == *start,
            r.end == *start + pos_span(cigar_map) - 1,
            r.cigar_map == cigar_map,
            r.strand == *strand,
            r.mapq == *mapq,
            r.raw_cigar@ == cigar_string@,
    {
        let span: i64 = cigar_map.del as i64 + cigar_map.matched as i64;
        let end: i64 = if *start >= 0 {
            *start - 1 + span
        } else {
            *start + span - 1
        };
        AlignmentPos {
            chrom: normalize_chrom(chrom),
            start: *start,
            end,
            cigar_map,
            strand: *strand,
            mapq: *mapq,
            raw_cigar: copy_text(cigar_string),
        }
    }
}

} // verus!
