use vstd::prelude::*;

use core::cmp::Ordering;

use crate::cigar::{find_first_match_pos, text_offset};
use crate::error::EvidenceError;
use crate::order::{
    alignment_pos_cmp, cmp_text, first_greater, genome_cmp, key_order, overlap, overlaps,
    stable_key_order,
};
use crate::split_read_event::{seg_views, SegView, SplitReadEvent};

verus! {

/// Which rule produced a piece of evidence.
#[derive(Clone, Copy, Debug, PartialEq, Eq, Structural)]
pub enum EvidenceTag {
    /// Two segments adjacent along their read.
    SplitRead,
    /// A long deletion or insertion inside one alignment.
    AlignmentEvent,
    /// A read of one heavily clipped segment.
    LargeInsertion,
    /// A read of two segments on different chromosomes, the primary heavily clipped.
    LargeInsertionOneAlignment,
    /// A read of two overlapping, heavily clipped segments on one chromosome and strand.
    LargeInsertionTwoAlignments,
}

/// A pair of intervals that is evidence of a breakpoint.
#[derive(Clone, Debug)]
pub struct BreakpointEvent {
    pub lchrom: String,
    pub lstart: i64,
    pub lend: i64,
    pub lstrand: i32,
    pub rchrom: String,
    pub rstart: i64,
    pub rend: i64,
    pub rstrand: i32,
    pub events_num: usize,
    pub tag: EvidenceTag,
}

/// What a `BreakpointEvent` holds, with texts as sequences.
pub struct BreakpointView {
    pub lchrom: Seq<char>,
    pub lstart: int,
    pub lend: int,
    pub lstrand: int,
    pub rchrom: Seq<char>,
    pub rstart: int,
    pub rend: int,
    pub rstrand: int,
    pub events_num: int,
    pub tag: EvidenceTag,
}

impl View for BreakpointEvent {
    type V = BreakpointView;

    open spec fn view(&self) -> BreakpointView {
        BreakpointView {
            lchrom: self.lchrom@,
            lstart: self.lstart as int,
            lend: self.lend as int,
            lstrand: self.lstrand as int,
            rchrom: self.rchrom@,
            rstart: self.rstart as int,
            rend: self.rend as int,
            rstrand: self.rstrand as int,
            events_num: self.events_num as int,
            tag: self.tag,
        }
    }
}

/// The views of a list of breakpoint events.
pub open spec fn bp_views(v: Seq<BreakpointEvent>) -> Seq<BreakpointView> {
    v.map_values(|e: BreakpointEvent| e@)
}

/// Left interval from `l`, right interval from `r`.
pub open spec fn interval_pair(l: SegView, r: SegView, count: int) -> BreakpointView {
    BreakpointView {
        lchrom: l.chrom,
        lstart: l.start,
        lend: l.end,
        lstrand: l.strand,
        rchrom: r.chrom,
        rstart: r.start,
        rend: r.end,
        rstrand: r.strand,
        events_num: count,
        tag: EvidenceTag::SplitRead,
    }
}

/// The breakpoint between two segments, the genomically earlier one on the left.
pub open spec fn pair_view(a: SegView, b: SegView, count: int) -> BreakpointView {
    if genome_cmp(a.chrom, a.start, b.chrom, b.start) == Ordering::Greater {
        interval_pair(b, a, count)
    } else {
        interval_pair(a, b, count)
    }
}

/// One breakpoint for each pair of segments adjacent in `list`, each counting
/// the breakpoints of the read.
pub open spec fn breakpoints_spec(list: Seq<SegView>) -> Seq<BreakpointView> {
    if list.len() < 2 {
        Seq::empty()
    } else {
        Seq::new((list.len() - 1) as nat, |i: int| pair_view(list[i], list[i + 1], list.len() - 1))
    }
}

/// A segment's own span, then a zero-width interval at its end.
pub open spec fn marker_view(s: SegView, tag: EvidenceTag) -> BreakpointView {
    BreakpointView {
        lchrom: s.chrom,
        lstart: s.start,
        lend: s.end,
        lstrand: s.strand,
        rchrom: s.chrom,
        rstart: s.end,
        rend: s.end,
        rstrand: s.strand,
        events_num: 1,
        tag,
    }
}

/// From `lo` to `hi` on `a`'s chromosome, then a zero-width interval at `hi` on `b`'s.
pub open spec fn span_marker(a: SegView, b: SegView, lo: int, hi: int) -> BreakpointView {
    BreakpointView {
        lchrom: a.chrom,
        lstart: lo,
        lend: hi,
        lstrand: a.strand,
        rchrom: b.chrom,
        rstart: hi,
        rend: hi,
        rstrand: b.strand,
        events_num: 1,
        tag: EvidenceTag::LargeInsertionTwoAlignments,
    }
}

/// `x` placed before the first element of sorted `s` that is not smaller.
pub open spec fn insert_sorted(s: Seq<i64>, x: i64) -> Seq<i64>
    decreases s.len(),
{
    if s.len() == 0 {
        seq![x]
    } else if x <= s[0] {
        seq![x] + s
    } else {
        seq![s[0]] + insert_sorted(s.skip(1), x)
    }
}

/// The elements of `s` in ascending order.
pub open spec fn sorted_seq(s: Seq<i64>) -> Seq<i64>
    decreases s.len(),
{
    if s.len() == 0 {
        s
    } else {
        insert_sorted(sorted_seq(s.drop_last()), s.last())
    }
}

/// A segment's soft or hard clip exceeds `clip_min`.
pub open spec fn heavily_clipped(s: SegView, clip_min: int) -> bool {
    s.cigar_map.soft_clip > clip_min || s.cigar_map.hard_clip > clip_min
}

/// The large-insertion markers of a read whose segments in read order are
/// `sorted`, `primary` being its primary segment.
pub open spec fn markers_spec(
    primary: SegView,
    sorted: Seq<SegView>,
    max_ppm: int,
    clip_min: int,
) -> Seq<BreakpointView> {
    if sorted.len() == 1 {
        if heavily_clipped(sorted[0], clip_min) {
            seq![marker_view(sorted[0], EvidenceTag::LargeInsertion)]
        } else {
            Seq::empty()
        }
    } else if sorted.len() == 2 {
        let a = sorted[0];
        let b = sorted[1];
        if a.chrom != b.chrom {
            if heavily_clipped(primary, clip_min) {
                seq![marker_view(primary, EvidenceTag::LargeInsertionOneAlignment)]
            } else {
                Seq::empty()
            }
        } else if heavily_clipped(a, clip_min) && heavily_clipped(b, clip_min) && a.strand == b.strand
            && overlaps(a.start, a.end, b.start, b.end, max_ppm) {
            let p = sorted_seq(seq![a.start as i64, a.end as i64, b.start as i64, b.end as i64]);
            seq![span_marker(a, b, p[0] as int, p[1] as int), span_marker(a, b, p[0] as int, p[2] as int)]
        } else {
            Seq::empty()
        }
    } else {
        Seq::empty()
    }
}

/// The adjacent pair at `i` shares a chromosome and overlaps by more than `max_ppm`.
pub open spec fn pair_overlaps(list: Seq<SegView>, i: int, max_ppm: int) -> bool {
    list[i].chrom == list[i + 1].chrom && overlaps(
        list[i].start,
        list[i].end,
        list[i + 1].start,
        list[i + 1].end,
        max_ppm,
    )
}

/// The first adjacent pair at or after `i` that overlaps.
pub open spec fn first_overlap_from(list: Seq<SegView>, max_ppm: int, i: int) -> Option<int>
    decreases list.len() - i,
{
    if i < 0 || i >= list.len() - 1 {
        None
    } else if pair_overlaps(list, i, max_ppm) {
        Some(i)
    } else {
        first_overlap_from(list, max_ppm, i + 1)
    }
}

/// Drops the earlier segment of the first overlapping adjacent pair, again
/// and again, until no adjacent pair overlaps.
pub open spec fn suppress_spec(list: Seq<SegView>, max_ppm: int) -> Seq<SegView>
    decreases list.len(),
{
    match first_overlap_from(list, max_ppm, 0) {
        Some(i) => if 0 <= i < list.len() {
            suppress_spec(list.remove(i), max_ppm)
        } else {
            list
        },
        None => list,
    }
}

impl BreakpointEvent {
    /// The breakpoint between segments `a` and `b`, the genomically earlier on the left.
    pub fn between(a: &SplitReadEvent, b: &SplitReadEvent, count: usize) -> (r: BreakpointEvent)
        ensures
            r@ == pair_view(a@, b@, count as int),
    {
        let later = match alignment_pos_cmp(a, b) {
            Ordering::Greater => true,
            _ => false,
        };
        let (l, rt) = if later {
            (b, a)
        } else {
            (a, b)
        };
        BreakpointEvent {
            lchrom: l.chrom.clone(),
            lstart: l.start,
            lend: l.end,
            lstrand: l.strand,
            rchrom: rt.chrom.clone(),
            rstart: rt.start,
            rend: rt.end,
            rstrand: rt.strand,
            events_num: count,
            tag: EvidenceTag::SplitRead,
        }
    }

    /// The marker of a segment's own span, closed by a zero-width interval at its end.
    pub fn marker(s: &SplitReadEvent, tag: EvidenceTag) -> (r: BreakpointEvent)
        ensures
            r@ == marker_view(s@, tag),
    {
        BreakpointEvent {
            lchrom: s.chrom.clone(),
            lstart: s.start,
            lend: s.end,
            lstrand: s.strand,
            rchrom: s.chrom.clone(),
            rstart: s.end,
            rend: s.end,
            rstrand: s.strand,
            events_num: 1,
            tag,
        }
    }

    /// A copy of this event.
    pub fn clone_event(&self) -> (r: BreakpointEvent)
        ensures
            r@ == self@,
    {
        BreakpointEvent {
            lchrom: self.lchrom.clone(),
            lstart: self.lstart,
            lend: self.lend,
            lstrand: self.lstrand,
            rchrom: self.rchrom.clone(),
            rstart: self.rstart,
            rend: self.rend,
            rstrand: self.rstrand,
            events_num: self.events_num,
            tag: self.tag,
        }
    }

    fn span(a: &SplitReadEvent, b: &SplitReadEvent, lo: i64, hi: i64) -> (r: BreakpointEvent)
        ensures
            r@ == span_marker(a@, b@, lo as int, hi as int),
    {
        BreakpointEvent {
            lchrom: a.chrom.clone(),
            lstart: lo,
            lend: hi,
            lstrand: a.strand,
            rchrom: b.chrom.clone(),
            rstart: hi,
            rend: hi,
            rstrand: b.strand,
            events_num: 1,
            tag: EvidenceTag::LargeInsertionTwoAlignments,
        }
    }
}

/// One breakpoint per pair of segments adjacent in `list`.
pub fn split_read_breakpoints(list: &Vec<SplitReadEvent>) -> (r: Vec<BreakpointEvent>)
    ensures
        bp_views(r@) == breakpoints_spec(seg_views(list@)),
{
    let mut out: Vec<BreakpointEvent> = Vec::new();
    let n = list.len();
    if n < 2 {
        assert(bp_views(out@) =~= breakpoints_spec(seg_views(list@)));
        return out;
    }
    let count = n - 1;
    let ghost want = breakpoints_spec(seg_views(list@));
    let mut i: usize = 1;
    while i < n
        invariant
            n == list@.len(),
            n >= 2,
            count == n - 1,
            1 <= i <= n,
            want == breakpoints_spec(seg_views(list@)),
            bp_views(out@) == want.take(i - 1),
        decreases n - i,
    {
        let ghost before = bp_views(out@);
        let e = BreakpointEvent::between(&list[i - 1], &list[i], count);
        out.push(e);
        assert(bp_views(out@) =~= before.push(e@));
        assert(want.take(i as int) =~= want.take(i - 1).push(want[i - 1]));
        i = i + 1;
    }
    assert(want.take(n - 1) =~= want);
    out
}

/// The first adjacent pair of `list` that shares a chromosome and overlaps.
fn first_overlap(list: &Vec<SplitReadEvent>, max_ppm: u32) -> (r: Option<usize>)
    ensures
        r matches Some(i) ==> i + 1 < list@.len() && first_overlap_from(seg_views(list@), max_ppm as int, 0)
            == Some(i as int),
        r is None ==> first_overlap_from(seg_views(list@), max_ppm as int, 0) is None,
{
    if list.len() < 2 {
        return None;
    }
    let mut i: usize = 0;
    while i < list.len() - 1
        invariant
            list@.len() >= 2,
            i <= list@.len(),
            first_overlap_from(seg_views(list@), max_ppm as int, 0) == first_overlap_from(
                seg_views(list@),
                max_ppm as int,
                i as int,
            ),
        decreases list@.len() - i,
    {
        let a = &list[i];
        let b = &list[i + 1];
        if a.chrom == b.chrom && overlap(&a.start, &a.end, &b.start, &b.end, max_ppm) {
            return Some(i);
        }
        i = i + 1;
    }
    None
}

/// Drops the earlier segment of the first adjacent same-chromosome pair that
/// overlaps by more than `max_ppm` parts per million, and starts over, until
/// no such pair is left.
pub fn suppress_overlaps(list: Vec<SplitReadEvent>, max_ppm: u32) -> (r: Vec<SplitReadEvent>)
    ensures
        seg_views(r@) == suppress_spec(seg_views(list@), max_ppm as int),
{
    let mut cur = list;
    loop
        invariant
            suppress_spec(seg_views(cur@), max_ppm as int) == suppress_spec(seg_views(list@), max_ppm as int),
        decreases cur@.len(),
    {
        match first_overlap(&cur, max_ppm) {
            None => {
                return cur;
            },
            Some(i) => {
                let ghost before = seg_views(cur@);
                cur.remove(i);
                assert(seg_views(cur@) =~= before.remove(i as int));
            },
        }
    }
}

proof fn lemma_insert_sorted_at(s: Seq<i64>, x: i64, p: int)
    requires
        0 <= p <= s.len(),
        forall|q: int| 0 <= q < p ==> x > #[trigger] s[q],
        p == s.len() || x <= s[p],
    ensures
        insert_sorted(s, x) == s.take(p) + seq![x] + s.skip(p),
    decreases p,
{
    if p == 0 {
        assert(s.take(0) + seq![x] + s.skip(0) =~= seq![x] + s);
    } else {
        let t = s.skip(1);
        assert forall|q: int| 0 <= q < p - 1 implies x > #[trigger] t[q] by {
            assert(t[q] == s[q + 1]);
        }
        if p < s.len() {
            assert(t[p - 1] == s[p]);
        }
        lemma_insert_sorted_at(t, x, p - 1);
        assert(seq![s[0]] + (t.take(p - 1) + seq![x] + t.skip(p - 1)) =~= s.take(p) + seq![x]
            + s.skip(p));
    }
}

fn insert_sorted_vec(s: &Vec<i64>, x: i64) -> (r: Vec<i64>)
    ensures
        r@ == insert_sorted(s@, x),
{
    let mut p: usize = 0;
    while p < s.len() && x > s[p]
        invariant
            p <= s@.len(),
            forall|q: int| 0 <= q < p ==> x > #[trigger] s@[q],
        decreases s@.len() - p,
    {
        p = p + 1;
    }
    proof {
        lemma_insert_sorted_at(s@, x, p as int);
    }
    let mut r: Vec<i64> = Vec::new();
    let mut i: usize = 0;
    while i < p
        invariant
            i <= p <= s@.len(),
            r@ == s@.take(i as int),
        decreases p - i,
    {
        assert(s@.take(i + 1) =~= s@.take(i as int).push(s@[i as int]));
        r.push(s[i]);
        i = i + 1;
    }
    r.push(x);
    while i < s.len()
        invariant
            p <= i <= s@.len(),
            r@ == s@.take(p as int) + seq![x] + s@.subrange(p as int, i as int),
        decreases s@.len() - i,
    {
        assert(s@.subrange(p as int, i + 1) =~= s@.subrange(p as int, i as int).push(s@[i as int]));
        r.push(s[i]);
        i = i + 1;
    }
    assert(s@.subrange(p as int, s@.len() as int) =~= s@.skip(p as int));
    r
}

/// The elements of `v` in ascending order.
pub fn sort_values(v: &Vec<i64>) -> (r: Vec<i64>)
    ensures
        r@ == sorted_seq(v@),
{
    let mut acc: Vec<i64> = Vec::new();
    let mut i: usize = 0;
    assert(v@.take(0) =~= Seq::<i64>::empty());
    while i < v.len()
        invariant
            i <= v@.len(),
            acc@ == sorted_seq(v@.take(i as int)),
        decreases v@.len() - i,
    {
        assert(v@.take(i + 1).drop_last() =~= v@.take(i as int));
        acc = insert_sorted_vec(&acc, v[i]);
        i = i + 1;
    }
    assert(v@.take(v@.len() as int) =~= v@);
    acc
}

fn is_heavily_clipped(s: &SplitReadEvent, clip_min: u32) -> (r: bool)
    ensures
        r == heavily_clipped(s@, clip_min as int),
{
    s.cigar_map.soft_clip > clip_min || s.cigar_map.hard_clip > clip_min
}

/// The large-insertion markers of a read: `sorted` holds its segments in
/// read order, `primary` its primary segment.
pub fn large_insertion_markers(
    primary: &SplitReadEvent,
    sorted: &Vec<SplitReadEvent>,
    max_ppm: u32,
    clip_min: u32,
) -> (r: Vec<BreakpointEvent>)
    ensures
        bp_views(r@) == markers_spec(primary@, seg_views(sorted@), max_ppm as int, clip_min as int),
{
    let mut out: Vec<BreakpointEvent> = Vec::new();
    if sorted.len() == 1 {
        if is_heavily_clipped(&sorted[0], clip_min) {
            out.push(BreakpointEvent::marker(&sorted[0], EvidenceTag::LargeInsertion));
        }
    } else if sorted.len() == 2 {
        let a = &sorted[0];
        let b = &sorted[1];
        if a.chrom != b.chrom {
            if is_heavily_clipped(primary, clip_min) {
                out.push(BreakpointEvent::marker(primary, EvidenceTag::LargeInsertionOneAlignment));
            }
        } else if is_heavily_clipped(a, clip_min) && is_heavily_clipped(b, clip_min) && a.strand
            == b.strand && overlap(&a.start, &a.end, &b.start, &b.end, max_ppm) {
            let four: Vec<i64> = vec![a.start, a.end, b.start, b.end];
            assert(four@ =~= seq![a.start, a.end, b.start, b.end]);
            let p = sort_values(&four);
            proof {
                reveal_with_fuel(sorted_seq, 5);
                reveal_with_fuel(insert_sorted, 5);
            }
            assert(p@.len() == 4);
            out.push(BreakpointEvent::span(a, b, p[0], p[1]));
            out.push(BreakpointEvent::span(a, b, p[0], p[2]));
        }
    }
    assert(bp_views(out@) =~= markers_spec(primary@, seg_views(sorted@), max_ppm as int, clip_min as int));
    out
}

/// Text order is antisymmetric.
pub proof fn lemma_cmp_text_antisymmetric(a: Seq<char>, b: Seq<char>)
    ensures
        cmp_text(a, b) == Ordering::Greater <==> cmp_text(b, a) == Ordering::Less,
    decreases a.len(),
{
    if a.len() > 0 && b.len() > 0 && (a[0] as u32) == (b[0] as u32) {
        lemma_cmp_text_antisymmetric(a.skip(1), b.skip(1));
    }
}

/// Every text is equal to itself in text order.
pub proof fn lemma_cmp_text_reflexive(a: Seq<char>)
    ensures
        cmp_text(a, a) == Ordering::Equal,
    decreases a.len(),
{
    if a.len() > 0 {
        lemma_cmp_text_reflexive(a.skip(1));
    }
}

/// No two adjacent elements of `s` are out of order.
pub open spec fn ascending(s: Seq<i64>) -> bool {
    forall|i: int| 0 <= i < s.len() - 1 ==> #[trigger] s[i] <= s[i + 1]
}

proof fn lemma_insert_sorted_ascending(s: Seq<i64>, x: i64)
    requires
        ascending(s),
    ensures
        ascending(insert_sorted(s, x)),
        insert_sorted(s, x).len() == s.len() + 1,
        insert_sorted(s, x)[0] == x || (s.len() > 0 && insert_sorted(s, x)[0] == s[0]),
    decreases s.len(),
{
    if s.len() > 0 && x > s[0] {
        let t = s.skip(1);
        assert forall|i: int| 0 <= i < t.len() - 1 implies #[trigger] t[i] <= t[i + 1] by {
            assert(t[i] == s[i + 1] && t[i + 1] == s[i + 2]);
        }
        lemma_insert_sorted_ascending(t, x);
        let r = insert_sorted(s, x);
        let u = insert_sorted(t, x);
        assert(r == seq![s[0]] + u);
        assert forall|i: int| 0 <= i < r.len() - 1 implies #[trigger] r[i] <= r[i + 1] by {
            if i == 0 {
                if t.len() > 0 {
                    assert(s[0] <= s[1]);
                }
            } else {
                assert(r[i] == u[i - 1] && r[i + 1] == u[i]);
            }
        }
    } else if s.len() > 0 {
        let r = insert_sorted(s, x);
        assert forall|i: int| 0 <= i < r.len() - 1 implies #[trigger] r[i] <= r[i + 1] by {
            if i > 0 {
                assert(r[i] == s[i - 1] && r[i + 1] == s[i]);
            }
        }
    }
}

/// `sorted_seq` is ascending and keeps the length.
pub proof fn lemma_sorted_seq_ascending(s: Seq<i64>)
    ensures
        ascending(sorted_seq(s)),
        sorted_seq(s).len() == s.len(),
    decreases s.len(),
{
    if s.len() > 0 {
        lemma_sorted_seq_ascending(s.drop_last());
        lemma_insert_sorted_ascending(sorted_seq(s.drop_last()), s.last());
    }
}

/// Each split-read breakpoint puts the genomically earlier segment on the
/// left: (left chromosome, left start) is at most (right chromosome, right start).
pub proof fn lemma_breakpoints_genome_ordered(list: Seq<SegView>)
    ensures
        forall|i: int|
            0 <= i < breakpoints_spec(list).len() ==> genome_cmp(
                (#[trigger] breakpoints_spec(list)[i]).lchrom,
                breakpoints_spec(list)[i].lstart,
                breakpoints_spec(list)[i].rchrom,
                breakpoints_spec(list)[i].rstart,
            ) != Ordering::Greater,
{
    assert forall|i: int| 0 <= i < breakpoints_spec(list).len() implies genome_cmp(
        (#[trigger] breakpoints_spec(list)[i]).lchrom,
        breakpoints_spec(list)[i].lstart,
        breakpoints_spec(list)[i].rchrom,
        breakpoints_spec(list)[i].rstart,
    ) != Ordering::Greater by {
        let a = list[i];
        let b = list[i + 1];
        lemma_cmp_text_antisymmetric(a.chrom, b.chrom);
        lemma_cmp_text_antisymmetric(b.chrom, a.chrom);
    }
}

/// Every segment's CIGAR text gives a read offset.
pub open spec fn all_offsets_ok(segs: Seq<SegView>) -> bool {
    forall|i: int| 0 <= i < segs.len() ==> (#[trigger] text_offset(segs[i].raw_cigar)) is Ok
}

/// The read offset of each segment.
pub open spec fn offset_keys(segs: Seq<SegView>) -> Seq<i64> {
    Seq::new(segs.len(), |i: int| text_offset(segs[i].raw_cigar)->Ok_0)
}

/// The segments listed by `order`.
pub open spec fn in_order(segs: Seq<SegView>, order: Seq<usize>) -> Seq<SegView> {
    order.map_values(|i: usize| segs[i as int])
}

/// The segments in read order: by read offset, ties in their given order.
pub open spec fn read_ordered(segs: Seq<SegView>) -> Seq<SegView> {
    in_order(segs, key_order(offset_keys(segs), segs.len()))
}

/// The split-read evidence of a read whose segments, primary first, are
/// `segs`: large-insertion markers where asked for, then one breakpoint per
/// adjacent pair of the read-ordered segments that overlap suppression keeps.
pub open spec fn assembled(
    segs: Seq<SegView>,
    max_overlap_ppm: Option<u32>,
    clip_min: int,
    with_insertions: bool,
) -> Seq<BreakpointView> {
    let sorted = read_ordered(segs);
    let markers = if with_insertions {
        markers_spec(
            segs[0],
            sorted,
            match max_overlap_ppm {
                Some(p) => p as int,
                None => 0,
            },
            clip_min,
        )
    } else {
        Seq::empty()
    };
    let kept = match max_overlap_ppm {
        Some(p) => suppress_spec(sorted, p as int),
        None => sorted,
    };
    markers + breakpoints_spec(kept)
}

/// The read offset of each segment; `MalformedCigar` where one has none.
pub fn read_offsets(segs: &Vec<SplitReadEvent>) -> (r: Result<Vec<i64>, EvidenceError>)
    ensures
        r is Ok <==> all_offsets_ok(seg_views(segs@)),
        r matches Ok(k) ==> k@ == offset_keys(seg_views(segs@)),
        r matches Err(e) ==> e == EvidenceError::MalformedCigar,
{
    let ghost sv = seg_views(segs@);
    let mut keys: Vec<i64> = Vec::new();
    let mut i: usize = 0;
    while i < segs.len()
        invariant
            i <= segs@.len(),
            sv == seg_views(segs@),
            keys@.len() == i,
            forall|j: int| 0 <= j < i ==> (#[trigger] text_offset(sv[j].raw_cigar)) is Ok,
            forall|j: int| 0 <= j < i ==> keys@[j] == text_offset(sv[j].raw_cigar)->Ok_0,
        decreases segs@.len() - i,
    {
        assert(sv[i as int].raw_cigar == segs@[i as int].raw_cigar@);
        match find_first_match_pos(segs[i].raw_cigar.as_str()) {
            Err(e) => {
                assert(!all_offsets_ok(sv));
                return Err(e);
            },
            Ok(v) => {
                keys.push(v);
            },
        }
        i = i + 1;
    }
    assert(keys@ =~= offset_keys(sv));
    Ok(keys)
}

/// The split-read evidence of one read, whose segments (primary first) are
/// `segs`: the segments are ordered along the read by read offset (ties keep
/// their order); where `with_insertions`, the large-insertion markers come
/// first; then, after overlap suppression where `max_overlap_ppm` is given,
/// one breakpoint per adjacent pair. `MalformedCigar` where a segment has no
/// read offset.
pub fn assemble_split_read(
    segs: &Vec<SplitReadEvent>,
    max_overlap_ppm: Option<u32>,
    ins_clip_min: u32,
    with_insertions: bool,
) -> (r: Result<Vec<BreakpointEvent>, EvidenceError>)
    ensures
        r is Err <==> !all_offsets_ok(seg_views(segs@)),
        r matches Err(e) ==> e == EvidenceError::MalformedCigar,
        r matches Ok(v) ==> bp_views(v@) == assembled(
            seg_views(segs@),
            max_overlap_ppm,
            ins_clip_min as int,
            with_insertions,
        ),
{
    let ghost sv = seg_views(segs@);
    let keys = match read_offsets(segs) {
        Err(e) => {
            return Err(e);
        },
        Ok(k) => k,
    };
    let order = stable_key_order(&keys);
    let mut sorted: Vec<SplitReadEvent> = Vec::new();
    let mut q: usize = 0;
    while q < order.len()
        invariant
            q <= order@.len(),
            order@.len() == segs@.len(),
            sv == seg_views(segs@),
            order@ == key_order(keys@, keys@.len()),
            keys@ == offset_keys(sv),
            forall|j: int| 0 <= j < order@.len() ==> #[trigger] order@[j] < segs@.len(),
            seg_views(sorted@) == in_order(sv, order@.take(q as int)),
        decreases order@.len() - q,
    {
        let idx = order[q];
        assert(order@[q as int] < segs@.len());
        let ghost before = seg_views(sorted@);
        sorted.push(segs[idx].duplicate());
        assert(seg_views(sorted@) =~= before.push(sv[idx as int]));
        assert(in_order(sv, order@.take(q + 1)) =~= in_order(sv, order@.take(q as int)).push(
            sv[idx as int],
        ));
        q = q + 1;
    }
    assert(order@.take(order@.len() as int) =~= order@);
    let mut out: Vec<BreakpointEvent> = Vec::new();
    if with_insertions && segs.len() >= 1 {
        let ppm: u32 = match max_overlap_ppm {
            Some(p) => p,
            None => 0,
        };
        out = large_insertion_markers(&segs[0], &sorted, ppm, ins_clip_min);
    }
    assert(with_insertions && segs@.len() == 0 ==> markers_spec(
        sv[0],
        seg_views(sorted@),
        match max_overlap_ppm {
            Some(p) => p as int,
            None => 0,
        },
        ins_clip_min as int,
    ) =~= Seq::<BreakpointView>::empty());
    let kept = match max_overlap_ppm {
        Some(p) => suppress_overlaps(sorted, p),
        None => sorted,
    };
    let pairs = split_read_breakpoints(&kept);
    let ghost mv = bp_views(out@);
    let ghost pv = bp_views(pairs@);
    let mut k: usize = 0;
    while k < pairs.len()
        invariant
            k <= pairs@.len(),
            pv == bp_views(pairs@),
            bp_views(out@) == mv + pv.take(k as int),
        decreases pairs@.len() - k,
    {
        let ghost before = bp_views(out@);
        out.push(pairs[k].clone_event());
        assert(bp_views(out@) =~= before.push(pv[k as int]));
        assert(pv.take(k + 1) =~= pv.take(k as int).push(pv[k as int]));
        k = k + 1;
    }
    assert(pv.take(pv.len() as int) =~= pv);
    assert(bp_views(out@) == assembled(sv, max_overlap_ppm, ins_clip_min as int, with_insertions));
    Ok(out)
}

/// Every piece of split-read evidence is genome-ordered: (left chromosome,
/// left start) is at most (right chromosome, right start). The markers
/// need each segment to end no earlier than it starts.
pub proof fn lemma_assembled_genome_ordered(
    segs: Seq<SegView>,
    max_overlap_ppm: Option<u32>,
    clip_min: int,
    with_insertions: bool,
)
    requires
        segs.len() <= usize::MAX,
        forall|i: int| 0 <= i < segs.len() ==> #[trigger] segs[i].start <= segs[i].end,
    ensures
        forall|i: int|
            0 <= i < assembled(segs, max_overlap_ppm, clip_min, with_insertions).len()
                ==> genome_cmp(
                (#[trigger] assembled(segs, max_overlap_ppm, clip_min, with_insertions)[i]).lchrom,
                assembled(segs, max_overlap_ppm, clip_min, with_insertions)[i].lstart,
                assembled(segs, max_overlap_ppm, clip_min, with_insertions)[i].rchrom,
                assembled(segs, max_overlap_ppm, clip_min, with_insertions)[i].rstart,
            ) != Ordering::Greater,
{
    let out = assembled(segs, max_overlap_ppm, clip_min, with_insertions);
    let sorted = read_ordered(segs);
    let ppm = match max_overlap_ppm {
        Some(p) => p as int,
        None => 0,
    };
    let markers = if with_insertions {
        markers_spec(segs[0], sorted, ppm, clip_min)
    } else {
        Seq::empty()
    };
    let kept = match max_overlap_ppm {
        Some(p) => suppress_spec(sorted, p as int),
        None => sorted,
    };
    let pairs = breakpoints_spec(kept);
    assert(out == markers + pairs);
    lemma_breakpoints_genome_ordered(kept);
    let order = key_order(offset_keys(segs), segs.len());
    lemma_key_order_in_range(offset_keys(segs), segs.len());
    assert forall|j: int| 0 <= j < sorted.len() implies #[trigger] sorted[j].start <= sorted[j].end by {
        assert(sorted[j] == segs[order[j] as int]);
    }
    if sorted.len() == 2 {
        let a = sorted[0];
        let b = sorted[1];
        let four = seq![a.start as i64, a.end as i64, b.start as i64, b.end as i64];
        lemma_sorted_seq_ascending(four);
        let p = sorted_seq(four);
        assert(p[0] <= p[1] && p[1] <= p[2]);
    }
    assert forall|i: int| 0 <= i < out.len() implies genome_cmp(
        (#[trigger] out[i]).lchrom,
        out[i].lstart,
        out[i].rchrom,
        out[i].rstart,
    ) != Ordering::Greater by {
        if i < markers.len() {
            lemma_cmp_text_reflexive(out[i].lchrom);
            if sorted.len() == 2 && segs.len() > 0 {
                assert(segs[0].start <= segs[0].end);
            }
        } else {
            assert(out[i] == pairs[i - markers.len()]);
        }
    }
}

/// Every index that `key_order` lists is below `n`, and it lists `n` of them.
pub proof fn lemma_key_order_in_range(keys: Seq<i64>, n: nat)
    requires
        n <= usize::MAX,
    ensures
        key_order(keys, n).len() == n,
        forall|j: int| 0 <= j < n ==> #[trigger] key_order(keys, n)[j] < n,
    decreases n,
{
    if n > 0 {
        let o = key_order(keys, (n - 1) as nat);
        lemma_key_order_in_range(keys, (n - 1) as nat);
        let p = first_greater(keys, o, keys[n - 1], 0);
        lemma_first_greater_bounds(keys, o, keys[n - 1], 0);
        let r = o.insert(p, (n - 1) as usize);
        assert forall|j: int| 0 <= j < n implies #[trigger] r[j] < n by {
            if j < p {
                assert(r[j] == o[j]);
            } else if j > p {
                assert(r[j] == o[j - 1]);
            }
        }
    }
}

proof fn lemma_first_greater_bounds(keys: Seq<i64>, order: Seq<usize>, k: i64, p: int)
    requires
        0 <= p,
    ensures
        p <= first_greater(keys, order, k, p),
        p <= order.len() ==> first_greater(keys, order, k, p) <= order.len(),
        p > order.len() ==> first_greater(keys, order, k, p) == p,
    decreases order.len() - p,
{
    if p < order.len() && keys[order[p] as int] <= k {
        lemma_first_greater_bounds(keys, order, k, p + 1);
    }
}

} // verus!
