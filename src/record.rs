use vstd::prelude::*;

use crate::alignment_event::{views, AlignmentEvent, EventView};
use crate::breakpoint::{
    all_offsets_ok, assemble_split_read, assembled, bp_views, BreakpointEvent, BreakpointView,
    EvidenceTag,
};
use crate::cigar::{cigar_text, cigar_to_string, totals_fit, totals_spec, CigarOp, CigarTotals};
use crate::error::EvidenceError;
use crate::indel::{
    counts_one, extract_indel_events, lemma_merge_counts_one, lemma_walk_counts_one, merge_events,
    merge_pass_spec, ref_total, walk_events, walk_fits,
};
use crate::split_read_event::{seg_views, split_span, strip_chr, SegView, SplitReadEvent};
use crate::supplementary::{descriptor_error, descriptor_view, parse_descriptor};
use crate::text::{chars_of, split_ranges, split_spec, sub_vec};

verus! {

/// One alignment record, its fields already decoded.
pub struct AlignmentRecord {
    pub contig: String,
    /// 0-based reference position of the first aligned base.
    pub pos: i64,
    /// `1` forward, `-1` reverse.
    pub strand: i32,
    pub mapq: u8,
    pub flags: u16,
    pub cigar: Vec<CigarOp>,
    /// The supplementary-alignment annotation, descriptors separated by `;`.
    pub sa: Option<String>,
    pub qname: String,
}

/// What the extraction reads from its configuration.
#[derive(Clone, Copy, Debug)]
pub struct EvidenceConfig {
    pub min_mapq: u8,
    pub exclude_flag: u16,
    pub exclude_secondary: bool,
    pub exclude_unmapped: bool,
    /// Minimal length of a deletion or insertion that makes an event.
    pub indel_min: u32,
    /// Adjacent deletion events closer than this are merged.
    pub merge_min: u32,
    /// A soft or hard clip longer than this marks a large-insertion candidate.
    pub ins_clip_min: u32,
    /// Overlap suppression threshold, in parts per million of the shorter segment.
    pub max_overlap_ppm: Option<u32>,
    /// Reads with more supplementary alignments give no split-read evidence.
    pub max_supp_alignm: usize,
    /// Report split-read evidence only.
    pub split_only: bool,
}

/// A record that the configured filters keep: not excluded as secondary
/// (flag 0x100) or unmapped (flag 0x4), mapping quality high enough, and
/// none of the excluded flags set.
pub open spec fn kept_by_filters(rec: AlignmentRecord, cfg: EvidenceConfig) -> bool {
    &&& !(cfg.exclude_secondary && rec.flags & 0x100u16 != 0)
    &&& !(cfg.exclude_unmapped && rec.flags & 0x4u16 != 0)
    &&& rec.mapq >= cfg.min_mapq
    &&& rec.flags & cfg.exclude_flag == 0
}

/// Whether the configured filters keep `rec`.
pub fn passes_filters(rec: &AlignmentRecord, cfg: &EvidenceConfig) -> (r: bool)
    ensures
        r == kept_by_filters(*rec, *cfg),
{
    !(cfg.exclude_secondary && rec.flags & 0x100u16 != 0) && !(cfg.exclude_unmapped && rec.flags
        & 0x4u16 != 0) && rec.mapq >= cfg.min_mapq && rec.flags & cfg.exclude_flag == 0
}

/// The text of a record's supplementary-alignment annotation; empty where it has none.
pub open spec fn sa_text(rec: AlignmentRecord) -> Seq<char> {
    match rec.sa {
        Some(s) => s@,
        None => Seq::empty(),
    }
}

/// The nonempty pieces of `fs`, in order.
pub open spec fn nonempty_fields(fs: Seq<Seq<char>>) -> Seq<Seq<char>>
    decreases fs.len(),
{
    if fs.len() == 0 {
        Seq::empty()
    } else {
        let r = nonempty_fields(fs.drop_last());
        if fs.last().len() > 0 {
            r.push(fs.last())
        } else {
            r
        }
    }
}

/// The supplementary descriptors of a record.
pub open spec fn supplementary_fields(rec: AlignmentRecord) -> Seq<Seq<char>> {
    nonempty_fields(split_spec(sa_text(rec), ';'))
}

/// The segments of the sound descriptors among `fs`.
pub open spec fn valid_views(fs: Seq<Seq<char>>) -> Seq<SegView>
    decreases fs.len(),
{
    if fs.len() == 0 {
        Seq::empty()
    } else {
        let r = valid_views(fs.drop_last());
        if descriptor_error(fs.last()) is None {
            r.push(descriptor_view(fs.last()))
        } else {
            r
        }
    }
}

/// No descriptor of `fs` has a malformed CIGAR.
pub open spec fn no_malformed(fs: Seq<Seq<char>>) -> bool {
    forall|i: int|
        0 <= i < fs.len() ==> descriptor_error(#[trigger] fs[i]) != Some(
            EvidenceError::MalformedCigar,
        )
}

/// The primary segment of a record.
pub open spec fn primary_view(rec: AlignmentRecord) -> SegView {
    let t = totals_spec(rec.cigar@);
    SegView {
        chrom: strip_chr(rec.contig@),
        start: rec.pos as int,
        end: rec.pos + split_span(t) - 1,
        cigar_map: t,
        strand: rec.strand as int,
        mapq: rec.mapq as int,
        raw_cigar: cigar_text(rec.cigar@),
    }
}

/// The segments of a read: the primary, then those of its sound descriptors.
pub open spec fn read_segments(rec: AlignmentRecord) -> Seq<SegView> {
    seq![primary_view(rec)] + valid_views(supplementary_fields(rec))
}

/// The read has more supplementary alignments than allowed.
pub open spec fn split_suppressed(rec: AlignmentRecord, cfg: EvidenceConfig) -> bool {
    supplementary_fields(rec).len() > cfg.max_supp_alignm
}

/// Why a record gives no evidence at all, in the order checked.
pub open spec fn record_error(rec: AlignmentRecord, cfg: EvidenceConfig) -> Option<EvidenceError> {
    if !totals_fit(rec.cigar@) {
        Some(EvidenceError::MalformedCigar)
    } else if !(i64::MIN <= rec.pos + split_span(totals_spec(rec.cigar@)) - 1 <= i64::MAX) {
        Some(EvidenceError::PositionOutOfRange)
    } else if split_suppressed(rec, cfg) {
        None
    } else if !no_malformed(supplementary_fields(rec)) {
        Some(EvidenceError::MalformedCigar)
    } else if !all_offsets_ok(read_segments(rec)) {
        Some(EvidenceError::MalformedCigar)
    } else {
        None
    }
}

/// An event found inside one alignment, as evidence.
pub open spec fn to_bp_view(e: EventView) -> BreakpointView {
    BreakpointView {
        lchrom: e.lchrom,
        lstart: e.lstart,
        lend: e.lend,
        lstrand: e.lstrand,
        rchrom: e.rchrom,
        rstart: e.rstart,
        rend: e.rend,
        rstrand: e.rstrand,
        events_num: e.events_num,
        tag: EvidenceTag::AlignmentEvent,
    }
}

/// The intra-alignment evidence of a record: its CIGAR's long indels, merged;
/// none where only split reads are asked for, or where the coordinates do
/// not fit in `u32`.
pub open spec fn indel_evidence(rec: AlignmentRecord, cfg: EvidenceConfig) -> Seq<BreakpointView> {
    if cfg.split_only || !walk_fits(rec.cigar@, rec.pos as int, cfg.indel_min as int) {
        Seq::empty()
    } else {
        merge_pass_spec(
            walk_events(
                rec.cigar@,
                ref_total(rec.cigar@) as int,
                rec.contig@,
                rec.pos as int,
                rec.strand as int,
                cfg.indel_min as int,
            ),
            cfg.merge_min as int,
        ).map_values(|e: EventView| to_bp_view(e))
    }
}

/// The evidence of a record: split-read evidence unless the read has too many
/// supplementary alignments, then intra-alignment evidence.
pub open spec fn record_evidence(rec: AlignmentRecord, cfg: EvidenceConfig) -> Seq<BreakpointView> {
    if split_suppressed(rec, cfg) {
        indel_evidence(rec, cfg)
    } else {
        assembled(read_segments(rec), cfg.max_overlap_ppm, cfg.ins_clip_min as int, !cfg.split_only)
            + indel_evidence(rec, cfg)
    }
}

/// The segments of a record's sound supplementary descriptors, in order;
/// a descriptor refused for its fields or strand is left out.
/// `ExcessSupplementaryCount` where there are more than `max_supp_alignm`
/// descriptors, else `MalformedCigar` where one has a malformed CIGAR.
pub fn supplementary_segments(rec: &AlignmentRecord, max_supp_alignm: usize) -> (r: Result<
    Vec<SplitReadEvent>,
    EvidenceError,
>)
    ensures
        supplementary_fields(*rec).len() > max_supp_alignm ==> r == Err::<
            Vec<SplitReadEvent>,
            EvidenceError,
        >(EvidenceError::ExcessSupplementaryCount),
        supplementary_fields(*rec).len() <= max_supp_alignm ==> {
            &&& r is Err <==> !no_malformed(supplementary_fields(*rec))
            &&& r matches Err(e) ==> e == EvidenceError::MalformedCigar
            &&& r matches Ok(v) ==> seg_views(v@) == valid_views(supplementary_fields(*rec))
        },
{
    let sa_chars: Vec<char> = match &rec.sa {
        Some(s) => chars_of(s.as_str()),
        None => Vec::new(),
    };
    assert(sa_chars@ == sa_text(*rec));
    let fields = descriptor_ranges(&sa_chars);
    let ghost fs = supplementary_fields(*rec);
    if fields.len() > max_supp_alignm {
        return Err(EvidenceError::ExcessSupplementaryCount);
    }
    let mut segs: Vec<SplitReadEvent> = Vec::new();
    let mut k: usize = 0;
    assert(fs.take(0) =~= Seq::<Seq<char>>::empty());
    assert(seg_views(segs@) =~= valid_views(fs.take(0)));
    while k < fields.len()
        invariant
            k <= fields@.len() == fs.len(),
            fs == supplementary_fields(*rec),
            fs == nonempty_fields(split_spec(sa_chars@, ';')),
            forall|q: int| #![trigger fields@[q]] 0 <= q < fields@.len() ==> fields@[q].0 <= fields@[q].1 <= sa_chars@.len(),
            forall|q: int|
                0 <= q < fields@.len() ==> sa_chars@.subrange(fields@[q].0 as int, fields@[q].1 as int)
                    == #[trigger] fs[q],
            seg_views(segs@) == valid_views(fs.take(k as int)),
            no_malformed(fs.take(k as int)),
            fs.len() <= max_supp_alignm,
        decreases fields@.len() - k,
    {
        let (lo, hi) = fields[k];
        assert(fields@[k as int].0 <= fields@[k as int].1);
        let d = sub_vec(&sa_chars, lo, hi);
        assert(d@ == fs[k as int]);
        assert(fs.take(k + 1).drop_last() =~= fs.take(k as int));
        assert(fs.take(k + 1).last() == fs[k as int]);
        let ghost before = seg_views(segs@);
        match parse_descriptor(&d) {
            Ok(seg) => {
                segs.push(seg);
                assert(seg_views(segs@) =~= before.push(descriptor_view(fs[k as int])));
            },
            Err(EvidenceError::MalformedCigar) => {
                assert(fs.take(k + 1)[k as int] == fs[k as int]);
                assert(!no_malformed(fs));
                return Err(EvidenceError::MalformedCigar);
            },
            Err(_) => {},
        }
        assert forall|q: int| 0 <= q < k + 1 implies descriptor_error(
            #[trigger] fs.take(k + 1)[q],
        ) != Some(EvidenceError::MalformedCigar) by {
            if q < k {
                assert(fs.take(k + 1)[q] == fs.take(k as int)[q]);
            }
        }
        k = k + 1;
    }
    assert(fs.take(fs.len() as int) =~= fs);
    Ok(segs)
}

/// The nonempty ranges of `sa` between `;` separators.
fn descriptor_ranges(sa: &Vec<char>) -> (r: Vec<(usize, usize)>)
    ensures
        r@.len() == nonempty_fields(split_spec(sa@, ';')).len(),
        forall|k: int| #![trigger r@[k]] 0 <= k < r@.len() ==> r@[k].0 <= r@[k].1 <= sa@.len(),
        forall|k: int|
            0 <= k < r@.len() ==> sa@.subrange(r@[k].0 as int, r@[k].1 as int)
                == #[trigger] nonempty_fields(split_spec(sa@, ';'))[k],
{
    let ghost fs = split_spec(sa@, ';');
    let all = split_ranges(sa, ';');
    let mut out: Vec<(usize, usize)> = Vec::new();
    let mut j: usize = 0;
    assert(fs.take(0) =~= Seq::<Seq<char>>::empty());
    while j < all.len()
        invariant
            j <= all@.len() == fs.len(),
            fs == split_spec(sa@, ';'),
            forall|k: int| #![trigger all@[k]] 0 <= k < all@.len() ==> all@[k].0 <= all@[k].1 <= sa@.len(),
            forall|k: int|
                0 <= k < all@.len() ==> sa@.subrange(all@[k].0 as int, all@[k].1 as int)
                    == #[trigger] fs[k],
            out@.len() == nonempty_fields(fs.take(j as int)).len(),
            forall|k: int| #![trigger out@[k]] 0 <= k < out@.len() ==> out@[k].0 <= out@[k].1 <= sa@.len(),
            forall|k: int|
                0 <= k < out@.len() ==> sa@.subrange(out@[k].0 as int, out@[k].1 as int)
                    == #[trigger] nonempty_fields(fs.take(j as int))[k],
        decreases all@.len() - j,
    {
        let (lo, hi) = all[j];
        assert(all@[j as int].0 <= all@[j as int].1);
        assert(fs.take(j + 1).drop_last() =~= fs.take(j as int));
        assert(fs.take(j + 1).last() == fs[j as int]);
        let ghost old_out = out@;
        let ghost prev = nonempty_fields(fs.take(j as int));
        let ghost next = nonempty_fields(fs.take(j + 1));
        if lo < hi {
            out.push((lo, hi));
            assert(next == prev.push(fs[j as int]));
        } else {
            assert(fs[j as int].len() == 0);
            assert(next == prev);
        }
        assert forall|k: int| #![trigger out@[k]] 0 <= k < out@.len() implies out@[k].0 <= out@[k].1
            <= sa@.len() by {
            if k < old_out.len() {
                assert(out@[k] == old_out[k]);
            }
        }
        assert forall|k: int| 0 <= k < out@.len() implies sa@.subrange(
            out@[k].0 as int,
            out@[k].1 as int,
        ) == #[trigger] next[k] by {
            if k < old_out.len() {
                assert(out@[k] == old_out[k]);
                assert(next[k] == prev[k]);
            }
        }
        j = j + 1;
    }
    assert(fs.take(fs.len() as int) =~= fs);
    out
}

impl BreakpointEvent {
    /// An event found inside one alignment, as evidence.
    pub fn from_alignment_event(e: &AlignmentEvent) -> (r: BreakpointEvent)
        requires
            e.events_num >= 0,
        ensures
            r@ == to_bp_view(e@),
    {
        BreakpointEvent {
            lchrom: e.lchrom.clone(),
            lstart: e.lstart as i64,
            lend: e.lend as i64,
            lstrand: e.lstrand,
            rchrom: e.rchrom.clone(),
            rstart: e.rstart as i64,
            rend: e.rend as i64,
            rstrand: e.rstrand,
            events_num: e.events_num as usize,
            tag: EvidenceTag::AlignmentEvent,
        }
    }
}

/// The evidence of one record: split-read evidence (large-insertion markers,
/// then breakpoints) unless the read has too many supplementary alignments,
/// then the merged intra-alignment events unless only split reads are asked
/// for. A descriptor that is refused for its fields or strand is skipped; a
/// malformed CIGAR anywhere skips the whole read.
pub fn process_record(rec: &AlignmentRecord, cfg: &EvidenceConfig) -> (r: Result<
    Vec<BreakpointEvent>,
    EvidenceError,
>)
    ensures
        r is Err <==> record_error(*rec, *cfg) is Some,
        r matches Err(e) ==> record_error(*rec, *cfg) == Some(e),
        r matches Ok(v) ==> bp_views(v@) == record_evidence(*rec, *cfg),
{
    let totals = match CigarTotals::from_ops(&rec.cigar) {
        Err(e) => {
            return Err(e);
        },
        Ok(t) => t,
    };
    let span: i128 = totals.del as i128 + totals.matched as i128 + totals.equal as i128
        + totals.diff as i128;
    let last: i128 = rec.pos as i128 + span - 1;
    if last < i64::MIN as i128 || last > i64::MAX as i128 {
        return Err(EvidenceError::PositionOutOfRange);
    }
    let text = cigar_to_string(&rec.cigar);
    let primary = SplitReadEvent::new(
        rec.contig.as_str(),
        &rec.pos,
        totals,
        &rec.strand,
        &rec.mapq,
        text.as_str(),
    );
    assert(primary@ == primary_view(*rec));
    let mut out: Vec<BreakpointEvent> = Vec::new();
    let supp = supplementary_segments(rec, cfg.max_supp_alignm);
    match supp {
        Err(EvidenceError::ExcessSupplementaryCount) => {},
        Err(e) => {
            return Err(e);
        },
        Ok(more) => {
            let mut more = more;
            let ghost mv = seg_views(more@);
            let mut segs: Vec<SplitReadEvent> = Vec::new();
            segs.push(primary);
            segs.append(&mut more);
            assert(seg_views(segs@) =~= seq![primary_view(*rec)] + mv);
            match assemble_split_read(&segs, cfg.max_overlap_ppm, cfg.ins_clip_min, !cfg.split_only) {
                Err(e) => {
                    return Err(e);
                },
                Ok(v) => {
                    out = v;
                },
            }
        },
    }
    let ghost split_part = bp_views(out@);
    let ghost indel = indel_evidence(*rec, *cfg);
    if !cfg.split_only {
        match extract_indel_events(rec.contig.as_str(), rec.pos, rec.strand, &rec.cigar, cfg.indel_min) {
            None => {
                assert(bp_views(out@) =~= split_part + indel);
            },
            Some(evs) => {
                let merged = merge_events(&evs, cfg.merge_min);
                let ghost mv = views(merged@);
                proof {
                    lemma_walk_counts_one(
                        rec.cigar@,
                        ref_total(rec.cigar@) as int,
                        rec.contig@,
                        rec.pos as int,
                        rec.strand as int,
                        cfg.indel_min as int,
                    );
                    lemma_merge_counts_one(views(evs@), cfg.merge_min as int, 5);
                }
                assert(indel == mv.map_values(|e: EventView| to_bp_view(e)));
                let mut k: usize = 0;
                while k < merged.len()
                    invariant
                        k <= merged@.len(),
                        mv == views(merged@),
                        counts_one(mv),
                        indel == mv.map_values(|e: EventView| to_bp_view(e)),
                        bp_views(out@) == split_part + indel.take(k as int),
                    decreases merged@.len() - k,
                {
                    assert(mv[k as int].events_num == 1);
                    let ghost before = bp_views(out@);
                    let e = BreakpointEvent::from_alignment_event(&merged[k]);
                    out.push(e);
                    assert(bp_views(out@) =~= before.push(indel[k as int]));
                    assert(indel.take(k + 1) =~= indel.take(k as int).push(indel[k as int]));
                    k = k + 1;
                }
                assert(indel.take(indel.len() as int) =~= indel);
            },
        }
    } else {
        assert(bp_views(out@) =~= split_part + indel);
    }
    assert(bp_views(out@) == record_evidence(*rec, *cfg));
    Ok(out)
}

} // verus!
