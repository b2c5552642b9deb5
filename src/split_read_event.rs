use vstd::prelude::*;

use crate::cigar::{CigarKind, CigarOp, CigarTotals, total_of};
use crate::text::{chars_of, push_text, string_of};

verus! {

/// `s` begins with the literal `chr`.
pub open spec fn has_chr_prefix(s: Seq<char>) -> bool {
    s.len() >= 3 && s[0] == 'c' && s[1] == 'h' && s[2] == 'r'
}

/// A chromosome name with one leading `chr` taken off.
pub open spec fn strip_chr(s: Seq<char>) -> Seq<char> {
    if has_chr_prefix(s) {
        s.skip(3)
    } else {
        s
    }
}

/// The chromosome name `chrom` with one leading `chr` taken off.
pub fn normalize_chrom(chrom: &str) -> (r: String)
    ensures
        r@ == strip_chr(chrom@),
{
    let v = chars_of(chrom);
    let n = v.len();
    if n >= 3 && v[0] == 'c' && v[1] == 'h' && v[2] == 'r' {
        string_of(&v, 3, n)
    } else {
        assert(v@.subrange(0, n as int) =~= v@);
        string_of(&v, 0, n)
    }
}

/// A copy of `s`.
pub fn copy_text(s: &str) -> (r: String)
    ensures
        r@ == s@,
{
    let mut out = String::new();
    push_text(&mut out, s);
    assert(Seq::<char>::empty() + s@ =~= s@);
    out
}

/// The reference bases that a split-read segment spans: deletions, matches,
/// sequence matches and sequence mismatches.
pub open spec fn split_span(t: CigarTotals) -> int {
    t.del + t.matched + t.equal + t.diff
}

/// One alignment of a read, as the split-read assembler uses it.
#[derive(Debug)]
pub struct SplitReadEvent {
    pub chrom: String,
    pub start: i64,
    /// Inclusive: the last reference base that the alignment covers.
    pub end: i64,
    pub cigar_map: CigarTotals,
    pub strand: i32,
    pub mapq: u8,
    pub raw_cigar: String,
}

/// What a `SplitReadEvent` holds, with texts as sequences.
pub struct SegView {
    pub chrom: Seq<char>,
    pub start: int,
    pub end: int,
    pub cigar_map: CigarTotals,
    pub strand: int,
    pub mapq: int,
    pub raw_cigar: Seq<char>,
}

impl View for SplitReadEvent {
    type V = SegView;

    open spec fn view(&self) -> SegView {
        SegView {
            chrom: self.chrom@,
            start: self.start as int,
            end: self.end as int,
            cigar_map: self.cigar_map,
            strand: self.strand as int,
            mapq: self.mapq as int,
            raw_cigar: self.raw_cigar@,
        }
    }
}

/// The views of a list of segments.
pub open spec fn seg_views(v: Seq<SplitReadEvent>) -> Seq<SegView> {
    v.map_values(|e: SplitReadEvent| e@)
}

impl SplitReadEvent {
    /// The segment of an alignment on `chrom` from `start`, with the CIGAR
    /// totals `cigar_map` and CIGAR text `cigar_string`.
    pub fn new(
        chrom: &str,
        start: &i64,
        cigar_map: CigarTotals,
        strand: &i32,
        mapq: &u8,
        cigar_string: &str,
    ) -> (r: SplitReadEvent)
        requires
            i64::MIN <= *start + split_span(cigar_map) - 1 <= i64::MAX,
        ensures
            r.chrom@ == strip_chr(chrom@),
            r.start == *start,
            r.end == *start + split_span(cigar_map) - 1,
            r.cigar_map == cigar_map,
            r.strand == *strand,
            r.mapq == *mapq,
            r.raw_cigar@ == cigar_string@,
    {
        let span: i64 = cigar_map.del as i64 + cigar_map.matched as i64 + cigar_map.equal as i64
            + cigar_map.diff as i64;
        let end: i64 = if *start >= 0 {
            *start - 1 + span
        } else {
            *start + span - 1
        };
        SplitReadEvent {
            chrom: normalize_chrom(chrom),
            start: *start,
            end,
            cigar_map,
            strand: *strand,
            mapq: *mapq,
            raw_cigar: copy_text(cigar_string),
        }
    }

    /// A copy of this segment.
    pub fn duplicate(&self) -> (r: SplitReadEvent)
        ensures
            r == *self,
    {
        SplitReadEvent {
            chrom: self.chrom.clone(),
            start: self.start,
            end: self.end,
            cigar_map: self.cigar_map,
            strand: self.strand,
            mapq: self.mapq,
            raw_cigar: self.raw_cigar.clone(),
        }
    }
}

/// Normalization leaves no `chr` prefix, except on a name that begins with it twice.
pub proof fn lemma_normalized_chrom(s: Seq<char>)
    requires
        !(has_chr_prefix(s) && has_chr_prefix(s.skip(3))),
    ensures
        !has_chr_prefix(strip_chr(s)),
{
}

/// A segment whose CIGAR has an operation of nonzero length among those
/// that its span counts ends no earlier than it starts.
pub proof fn lemma_segment_end_not_before_start(seg: SplitReadEvent, ops: Seq<CigarOp>, i: int)
    requires
        seg.cigar_map.is_totals_of(ops),
        seg.end == seg.start + split_span(seg.cigar_map) - 1,
        0 <= i < ops.len(),
        ops[i].len > 0,
        ops[i].kind == CigarKind::Del || ops[i].kind == CigarKind::Match || ops[i].kind
            == CigarKind::Equal || ops[i].kind == CigarKind::Diff,
    ensures
        seg.end >= seg.start,
{
    lemma_total_at_least_op(ops, i);
    assert(seg.cigar_map.total(ops[i].kind) == total_of(ops, ops[i].kind));
}

/// The total of a kind is at least the length of each operation of that kind.
pub proof fn lemma_total_at_least_op(ops: Seq<CigarOp>, i: int)
    requires
        0 <= i < ops.len(),
    ensures
        total_of(ops, ops[i].kind) >= ops[i].len,
    decreases ops.len(),
{
    if i < ops.len() - 1 {
        lemma_total_at_least_op(ops.drop_last(), i);
        assert(ops.drop_last()[i] == ops[i]);
    }
}

} // verus!
