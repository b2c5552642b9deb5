use vstd::prelude::*;

use crate::alignment_event::{views, AlignEventType, AlignmentEvent, EventView};
use crate::cigar::{consumes_reference, CigarKind, CigarOp};
use crate::split_read_event::strip_chr;

verus! {

/// The reference bases that `ops` consume.
pub open spec fn ref_total(ops: Seq<CigarOp>) -> nat
    decreases ops.len(),
{
    if ops.len() == 0 {
        0
    } else {
        ref_total(ops.drop_last()) + if consumes_reference(ops.last().kind) {
            ops.last().len as nat
        } else {
            0
        }
    }
}

pub proof fn lemma_ref_total_prefix(ops: Seq<CigarOp>, m: int)
    requires
        0 <= m <= ops.len(),
    ensures
        ref_total(ops.take(m)) <= ref_total(ops),
    decreases ops.len(),
{
    if m < ops.len() {
        lemma_ref_total_prefix(ops.drop_last(), m);
        assert(ops.drop_last().take(m) =~= ops.take(m));
    } else {
        assert(ops.take(m) =~= ops);
    }
}

/// The event, if any, that the last operation of `ops` gives, where the
/// whole CIGAR consumes `total` reference bases.
pub open spec fn walk_event(
    ops: Seq<CigarOp>,
    total: int,
    chrom: Seq<char>,
    pos: int,
    strand: int,
    indel_min: int,
) -> Option<EventView> {
    let op = ops.last();
    let left = ref_total(ops.drop_last()) as int;
    if op.kind == CigarKind::Del && op.len >= indel_min {
        Some(
            EventView {
                lchrom: strip_chr(chrom),
                lstart: pos,
                lend: pos + left,
                lstrand: strand,
                rchrom: strip_chr(chrom),
                rstart: pos + left + op.len,
                rend: pos + total,
                rstrand: strand,
                events_num: 1,
                svtype: AlignEventType::Del,
            },
        )
    } else if op.kind == CigarKind::Ins && op.len >= indel_min {
        Some(
            EventView {
                lchrom: strip_chr(chrom),
                lstart: pos,
                lend: pos + left,
                lstrand: strand,
                rchrom: strip_chr(chrom),
                rstart: pos + left,
                rend: pos + left + op.len,
                rstrand: strand,
                events_num: 1,
                svtype: AlignEventType::Ins,
            },
        )
    } else {
        None
    }
}

/// The events of a walk over `ops`: a deletion event for each deletion of at
/// least `indel_min` bases, an insertion event for each such insertion.
pub open spec fn walk_events(
    ops: Seq<CigarOp>,
    total: int,
    chrom: Seq<char>,
    pos: int,
    strand: int,
    indel_min: int,
) -> Seq<EventView>
    decreases ops.len(),
{
    if ops.len() == 0 {
        Seq::empty()
    } else {
        let prev = walk_events(ops.drop_last(), total, chrom, pos, strand, indel_min);
        match walk_event(ops, total, chrom, pos, strand, indel_min) {
            Some(e) => prev.push(e),
            None => prev,
        }
    }
}

/// Every coordinate of the walk's events fits in `u32`.
pub open spec fn walk_fits(ops: Seq<CigarOp>, pos: int, indel_min: int) -> bool {
    &&& 0 <= pos
    &&& pos + ref_total(ops) <= u32::MAX
    &&& forall|i: int|
        0 <= i < ops.len() && (#[trigger] ops[i]).kind == CigarKind::Ins && ops[i].len >= indel_min
            ==> pos + ref_total(ops.take(i)) + ops[i].len <= u32::MAX
}

/// The reference bases that `ops` consume.
pub fn reference_consumed(ops: &Vec<CigarOp>) -> (r: u128)
    ensures
        r == ref_total(ops@),
{
    let mut acc: u128 = 0;
    let mut i: usize = 0;
    assert(ops@.take(0) =~= Seq::<CigarOp>::empty());
    while i < ops.len()
        invariant
            i <= ops@.len(),
            acc == ref_total(ops@.take(i as int)),
            acc <= i * 0xffff_ffffu128,
        decreases ops@.len() - i,
    {
        let op = ops[i];
        assert(ops@.take(i + 1).drop_last() =~= ops@.take(i as int));
        if op.kind == CigarKind::Del || op.kind == CigarKind::Match || op.kind == CigarKind::RefSkip
            || op.kind == CigarKind::Equal || op.kind == CigarKind::Diff {
            acc = acc + op.len as u128;
        }
        i = i + 1;
    }
    assert(ops@.take(ops@.len() as int) =~= ops@);
    acc
}

/// Walks the CIGAR of an alignment on `chrom` at `pos` and reports each
/// deletion and insertion of at least `indel_min` bases; `None` where an
/// event's coordinates would not fit in `u32`.
pub fn extract_indel_events(
    chrom: &str,
    pos: i64,
    strand: i32,
    ops: &Vec<CigarOp>,
    indel_min: u32,
) -> (r: Option<Vec<AlignmentEvent>>)
    ensures
        r is Some <==> walk_fits(ops@, pos as int, indel_min as int),
        r matches Some(v) ==> views(v@) == walk_events(
            ops@,
            ref_total(ops@) as int,
            chrom@,
            pos as int,
            strand as int,
            indel_min as int,
        ),
{
    let total = reference_consumed(ops);
    if pos < 0 || total > 0xffff_ffffu128 || pos as u128 + total > 0xffff_ffffu128 {
        return None;
    }
    let total32: u32 = total as u32;
    let ghost tot = ref_total(ops@) as int;
    let mut out: Vec<AlignmentEvent> = Vec::new();
    let mut left: u32 = 0;
    let mut i: usize = 0;
    assert(ops@.take(0) =~= Seq::<CigarOp>::empty());
    while i < ops.len()
        invariant
            i <= ops@.len(),
            0 <= pos,
            pos + tot <= u32::MAX,
            tot == total32,
            tot == ref_total(ops@),
            left == ref_total(ops@.take(i as int)),
            forall|j: int|
                0 <= j < i && (#[trigger] ops@[j]).kind == CigarKind::Ins && ops@[j].len >= indel_min
                    ==> pos + ref_total(ops@.take(j)) + ops@[j].len <= u32::MAX,
            views(out@) == walk_events(ops@.take(i as int), tot, chrom@, pos as int, strand as int, indel_min as int),
        decreases ops@.len() - i,
    {
        let op = ops[i];
        let ghost pre = ops@.take(i + 1);
        assert(pre.drop_last() =~= ops@.take(i as int));
        assert(pre.last() == op);
        proof {
            lemma_ref_total_prefix(ops@, i + 1);
        }
        let ghost old_out = views(out@);
        if op.kind == CigarKind::Del {
            if op.len >= indel_min {
                let right: u32 = total32 - left - op.len;
                let e = AlignmentEvent::new(chrom, &left, &right, &op.len, &pos, &strand, Some(AlignEventType::Del));
                out.push(e);
                assert(views(out@) =~= old_out.push(e@));
            }
            left = left + op.len;
        } else if op.kind == CigarKind::Ins {
            if op.len >= indel_min {
                if pos as u128 + left as u128 + op.len as u128 > 0xffff_ffffu128 {
                    return None;
                }
                let e = AlignmentEvent::new(chrom, &left, &op.len, &0u32, &pos, &strand, Some(AlignEventType::Ins));
                out.push(e);
                assert(views(out@) =~= old_out.push(e@));
            }
        } else if op.kind == CigarKind::Match || op.kind == CigarKind::RefSkip || op.kind
            == CigarKind::Equal || op.kind == CigarKind::Diff {
            left = left + op.len;
        }
        i = i + 1;
    }
    assert(ops@.take(ops@.len() as int) =~= ops@);
    Some(out)
}

/// The distance between the right interval's start of `a` and the left
/// interval's end of the event `b` after it.
pub open spec fn gap(a: EventView, b: EventView) -> int {
    let d = b.lend - a.rstart;
    if d >= 0 {
        d
    } else {
        -d
    }
}

/// Two adjacent events are both deletions and closer than `merge_min`.
pub open spec fn mergeable(a: EventView, b: EventView, merge_min: int) -> bool {
    a.svtype == AlignEventType::Del && b.svtype == AlignEventType::Del && gap(a, b) < merge_min
}

/// One deletion from the left interval of `a` to the right interval of `b`.
pub open spec fn coalesce(a: EventView, b: EventView) -> EventView {
    EventView {
        lchrom: a.lchrom,
        lstart: a.lstart,
        lend: a.lend,
        lstrand: a.lstrand,
        rchrom: b.rchrom,
        rstart: b.rstart,
        rend: b.rend,
        rstrand: b.rstrand,
        events_num: 1,
        svtype: AlignEventType::Del,
    }
}

/// What the event at `idx` contributes to a round over three or more events.
pub open spec fn triple_out(l: Seq<EventView>, merge_min: int, idx: int) -> Seq<EventView> {
    let p = l[idx - 1];
    let t = l[idx];
    let n = l[idx + 1];
    let mp = mergeable(p, t, merge_min);
    let mn = mergeable(t, n, merge_min);
    if mp || mn {
        (if mp {
            seq![coalesce(p, t)]
        } else {
            Seq::empty()
        }) + (if mn {
            seq![coalesce(t, n)]
        } else {
            Seq::empty()
        })
    } else if idx == 1 {
        seq![p, t, n]
    } else {
        seq![n]
    }
}

/// The contributions of the events at `1..k`.
pub open spec fn scan(l: Seq<EventView>, merge_min: int, k: int) -> Seq<EventView>
    decreases k,
{
    if k <= 1 {
        Seq::empty()
    } else {
        scan(l, merge_min, k - 1) + triple_out(l, merge_min, k - 1)
    }
}

/// One merge round.
pub open spec fn merge_round_spec(l: Seq<EventView>, merge_min: int) -> Seq<EventView> {
    if l.len() == 2 {
        if mergeable(l[0], l[1], merge_min) {
            seq![coalesce(l[0], l[1])]
        } else {
            l
        }
    } else if l.len() > 2 {
        scan(l, merge_min, l.len() - 1)
    } else {
        l
    }
}

/// Rounds until the length stops changing, at most `fuel` of them.
pub open spec fn merge_rounds(l: Seq<EventView>, merge_min: int, fuel: nat) -> Seq<EventView>
    decreases fuel,
{
    if fuel == 0 {
        l
    } else {
        let r = merge_round_spec(l, merge_min);
        if r.len() == l.len() || fuel == 1 {
            r
        } else {
            merge_rounds(r, merge_min, (fuel - 1) as nat)
        }
    }
}

/// The merge pass: at most five rounds.
pub open spec fn merge_pass_spec(l: Seq<EventView>, merge_min: int) -> Seq<EventView> {
    merge_rounds(l, merge_min, 5)
}

/// No two adjacent events of `l` are mergeable.
pub open spec fn none_mergeable(l: Seq<EventView>, merge_min: int) -> bool {
    forall|i: int| 0 <= i < l.len() - 1 ==> !mergeable(#[trigger] l[i], l[i + 1], merge_min)
}

fn is_mergeable(a: &AlignmentEvent, b: &AlignmentEvent, merge_min: u32) -> (r: bool)
    ensures
        r == mergeable(a@, b@, merge_min as int),
{
    let d: u32 = if b.lend >= a.rstart { b.lend - a.rstart } else { a.rstart - b.lend };
    a.svtype == AlignEventType::Del && b.svtype == AlignEventType::Del && d < merge_min
}

fn coalesce_events(a: &AlignmentEvent, b: &AlignmentEvent) -> (r: AlignmentEvent)
    ensures
        r@ == coalesce(a@, b@),
{
    AlignmentEvent {
        lchrom: a.lchrom.clone(),
        lstart: a.lstart,
        lend: a.lend,
        lstrand: a.lstrand,
        rchrom: b.rchrom.clone(),
        rstart: b.rstart,
        rend: b.rend,
        rstrand: b.rstrand,
        events_num: 1,
        svtype: AlignEventType::Del,
    }
}

fn duplicate_events(l: &Vec<AlignmentEvent>) -> (r: Vec<AlignmentEvent>)
    ensures
        views(r@) == views(l@),
{
    let mut out: Vec<AlignmentEvent> = Vec::new();
    let mut i: usize = 0;
    while i < l.len()
        invariant
            i <= l@.len(),
            views(out@) == views(l@).take(i as int),
        decreases l@.len() - i,
    {
        let ghost old_out = views(out@);
        out.push(l[i].duplicate());
        assert(views(out@) =~= old_out.push(l@[i as int]@));
        assert(views(l@).take(i + 1) =~= views(l@).take(i as int).push(l@[i as int]@));
        i = i + 1;
    }
    assert(views(l@).take(l@.len() as int) =~= views(l@));
    out
}

/// One merge round over `l`.
pub fn merge_round(l: &Vec<AlignmentEvent>, merge_min: u32) -> (r: Vec<AlignmentEvent>)
    ensures
        views(r@) == merge_round_spec(views(l@), merge_min as int),
{
    let ghost lv = views(l@);
    let n = l.len();
    if n == 2 {
        if is_mergeable(&l[0], &l[1], merge_min) {
            let c = coalesce_events(&l[0], &l[1]);
            let mut out: Vec<AlignmentEvent> = Vec::new();
            out.push(c);
            assert(views(out@) =~= seq![coalesce(lv[0], lv[1])]);
            return out;
        }
        return duplicate_events(l);
    }
    if n < 2 {
        return duplicate_events(l);
    }
    let mut out: Vec<AlignmentEvent> = Vec::new();
    let mut idx: usize = 1;
    assert(views(out@) =~= scan(lv, merge_min as int, 1));
    while idx < n - 1
        invariant
            n == l@.len(),
            n > 2,
            lv == views(l@),
            1 <= idx <= n - 1,
            views(out@) == scan(lv, merge_min as int, idx as int),
        decreases n - idx,
    {
        let p = &l[idx - 1];
        let t = &l[idx];
        let x = &l[idx + 1];
        let mp = is_mergeable(p, t, merge_min);
        let mn = is_mergeable(t, x, merge_min);
        let ghost before = views(out@);
        let ghost added = triple_out(lv, merge_min as int, idx as int);
        if mp || mn {
            if mp {
                out.push(coalesce_events(p, t));
            }
            if mn {
                out.push(coalesce_events(t, x));
            }
        } else if idx == 1 {
            out.push(p.duplicate());
            out.push(t.duplicate());
            out.push(x.duplicate());
        } else {
            out.push(x.duplicate());
        }
        assert(views(out@) =~= before + added);
        idx = idx + 1;
    }
    out
}

/// The merge pass: rounds of `merge_round` until the number of events stays
/// the same, at most five.
pub fn merge_events(events: &Vec<AlignmentEvent>, merge_min: u32) -> (r: Vec<AlignmentEvent>)
    ensures
        views(r@) == merge_pass_spec(views(events@), merge_min as int),
{
    let mut cur = duplicate_events(events);
    let mut fuel: u32 = 5;
    loop
        invariant
            1 <= fuel <= 5,
            merge_rounds(views(cur@), merge_min as int, fuel as nat) == merge_pass_spec(
                views(events@),
                merge_min as int,
            ),
        decreases fuel,
    {
        let next = merge_round(&cur, merge_min);
        if next.len() == cur.len() || fuel == 1 {
            return next;
        }
        cur = next;
        fuel = fuel - 1;
    }
}

proof fn lemma_scan_identity(l: Seq<EventView>, merge_min: int, k: int)
    requires
        l.len() > 2,
        2 <= k <= l.len() - 1,
        none_mergeable(l, merge_min),
    ensures
        scan(l, merge_min, k) == l.take(k + 1),
    decreases k,
{
    assert(!mergeable(l[k - 2], l[k - 1], merge_min));
    assert(!mergeable(l[k - 1], l[k], merge_min));
    if k == 2 {
        assert(scan(l, merge_min, 1) =~= Seq::<EventView>::empty());
        assert(scan(l, merge_min, 2) =~= l.take(3));
    } else {
        lemma_scan_identity(l, merge_min, k - 1);
        assert(l.take(k) + seq![l[k]] =~= l.take(k + 1));
    }
}

/// A list with no two adjacent events closer than `merge_min` (or with an
/// insertion among them) passes the merge unchanged.
pub proof fn lemma_merge_fixed_point(l: Seq<EventView>, merge_min: int)
    requires
        none_mergeable(l, merge_min),
    ensures
        merge_pass_spec(l, merge_min) == l,
{
    if l.len() > 2 {
        lemma_scan_identity(l, merge_min, l.len() - 1);
        assert(l.take(l.len() as int) =~= l);
    } else if l.len() == 2 {
        assert(!mergeable(l[0], l[1], merge_min));
    }
    assert(merge_round_spec(l, merge_min) == l);
}

/// Running the merge pass again on its own output, when that output has no
/// two adjacent events closer than `merge_min`, changes nothing.
pub proof fn lemma_merge_idempotent(l: Seq<EventView>, merge_min: int)
    requires
        none_mergeable(merge_pass_spec(l, merge_min), merge_min),
    ensures
        merge_pass_spec(merge_pass_spec(l, merge_min), merge_min) == merge_pass_spec(l, merge_min),
{
    lemma_merge_fixed_point(merge_pass_spec(l, merge_min), merge_min);
}

/// Every event of `l` counts one event.
pub open spec fn counts_one(l: Seq<EventView>) -> bool {
    forall|i: int| 0 <= i < l.len() ==> (#[trigger] l[i]).events_num == 1
}

pub proof fn lemma_walk_counts_one(
    ops: Seq<CigarOp>,
    total: int,
    chrom: Seq<char>,
    pos: int,
    strand: int,
    indel_min: int,
)
    ensures
        counts_one(walk_events(ops, total, chrom, pos, strand, indel_min)),
    decreases ops.len(),
{
    if ops.len() > 0 {
        lemma_walk_counts_one(ops.drop_last(), total, chrom, pos, strand, indel_min);
    }
}

proof fn lemma_scan_counts_one(l: Seq<EventView>, merge_min: int, k: int)
    requires
        counts_one(l),
        k <= l.len() - 1,
    ensures
        counts_one(scan(l, merge_min, k)),
    decreases k,
{
    if k > 1 {
        lemma_scan_counts_one(l, merge_min, k - 1);
        let a = scan(l, merge_min, k - 1);
        let b = triple_out(l, merge_min, k - 1);
        assert(l[k - 2].events_num == 1 && l[k - 1].events_num == 1 && l[k].events_num == 1);
        assert forall|i: int| 0 <= i < (a + b).len() implies (#[trigger] (a + b)[i]).events_num == 1 by {
            if i >= a.len() {
                assert((a + b)[i] == b[i - a.len()]);
            }
        }
    }
}

/// Merging keeps every event counting one.
pub proof fn lemma_merge_counts_one(l: Seq<EventView>, merge_min: int, fuel: nat)
    requires
        counts_one(l),
    ensures
        counts_one(merge_rounds(l, merge_min, fuel)),
    decreases fuel,
{
    if fuel > 0 {
        let r = merge_round_spec(l, merge_min);
        if l.len() > 2 {
            lemma_scan_counts_one(l, merge_min, l.len() - 1);
        }
        assert(counts_one(r));
        if !(r.len() == l.len() || fuel == 1) {
            lemma_merge_counts_one(r, merge_min, (fuel - 1) as nat);
        }
    }
}

} // verus!
