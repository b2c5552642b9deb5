use vstd::prelude::*;

use core::cmp::Ordering;

use crate::cigar::{find_first_match_pos, text_offset};
use crate::error::EvidenceError;
use crate::split_read_event::SplitReadEvent;
use crate::text::chars_of;

verus! {

/// The order of two integers.
pub open spec fn cmp_int(a: int, b: int) -> Ordering {
    if a < b {
        Ordering::Less
    } else if a > b {
        Ordering::Greater
    } else {
        Ordering::Equal
    }
}

/// The lexicographic order of two texts by code point, which is the order of
/// their UTF-8 bytes.
pub open spec fn cmp_text(a: Seq<char>, b: Seq<char>) -> Ordering
    decreases a.len(),
{
    if a.len() == 0 {
        if b.len() == 0 {
            Ordering::Equal
        } else {
            Ordering::Less
        }
    } else if b.len() == 0 {
        Ordering::Greater
    } else if (a[0] as u32) < (b[0] as u32) {
        Ordering::Less
    } else if (a[0] as u32) > (b[0] as u32) {
        Ordering::Greater
    } else {
        cmp_text(a.skip(1), b.skip(1))
    }
}

/// Genome order: by chromosome name, then by start.
pub open spec fn genome_cmp(a_chrom: Seq<char>, a_start: int, b_chrom: Seq<char>, b_start: int) -> Ordering {
    if cmp_text(a_chrom, b_chrom) != Ordering::Equal {
        cmp_text(a_chrom, b_chrom)
    } else {
        cmp_int(a_start, b_start)
    }
}

/// The order of two texts, as `cmp_text` gives it.
pub fn compare_text(a: &Vec<char>, b: &Vec<char>) -> (r: Ordering)
    ensures
        r == cmp_text(a@, b@),
{
    let mut i: usize = 0;
    assert(a@.skip(0) =~= a@);
    assert(b@.skip(0) =~= b@);
    while i < a.len() && i < b.len()
        invariant
            i <= a@.len(),
            i <= b@.len(),
            cmp_text(a@, b@) == cmp_text(a@.skip(i as int), b@.skip(i as int)),
        decreases a@.len() - i,
    {
        let x = a[i];
        let y = b[i];
        assert(a@.skip(i as int)[0] == x);
        assert(b@.skip(i as int)[0] == y);
        if (x as u32) < (y as u32) {
            return Ordering::Less;
        }
        if (x as u32) > (y as u32) {
            return Ordering::Greater;
        }
        assert(a@.skip(i as int).skip(1) =~= a@.skip(i + 1));
        assert(b@.skip(i as int).skip(1) =~= b@.skip(i + 1));
        i = i + 1;
    }
    if i < a.len() {
        Ordering::Greater
    } else if i < b.len() {
        Ordering::Less
    } else {
        Ordering::Equal
    }
}

/// Orders two segments by where they lie on the genome: chromosome name
/// first, then start.
pub fn alignment_pos_cmp(a: &SplitReadEvent, b: &SplitReadEvent) -> (r: Ordering)
    ensures
        r == genome_cmp(a.chrom@, a.start as int, b.chrom@, b.start as int),
{
    let ac = chars_of(a.chrom.as_str());
    let bc = chars_of(b.chrom.as_str());
    let c = compare_text(&ac, &bc);
    match c {
        Ordering::Equal => {
            if a.start < b.start {
                Ordering::Less
            } else if a.start > b.start {
                Ordering::Greater
            } else {
                Ordering::Equal
            }
        },
        _ => c,
    }
}

/// The order of two segments along their read, by the read offset of each
/// one's first match; `MalformedCigar` where either offset is undefined.
pub open spec fn splitter_order(a: Seq<char>, b: Seq<char>) -> Result<Ordering, EvidenceError> {
    match text_offset(a) {
        Err(e) => Err(e),
        Ok(x) => match text_offset(b) {
            Err(e) => Err(e),
            Ok(y) => Ok(cmp_int(x as int, y as int)),
        },
    }
}

/// Orders two segments along their read: by the read offset of the first
/// aligned base of each one's CIGAR.
pub fn splitter_order_cmp(a: &SplitReadEvent, b: &SplitReadEvent) -> (r: Result<Ordering, EvidenceError>)
    ensures
        r == splitter_order(a.raw_cigar@, b.raw_cigar@),
{
    let x = match find_first_match_pos(a.raw_cigar.as_str()) {
        Err(e) => {
            return Err(e);
        },
        Ok(v) => v,
    };
    let y = match find_first_match_pos(b.raw_cigar.as_str()) {
        Err(e) => {
            return Err(e);
        },
        Ok(v) => v,
    };
    if x < y {
        Ok(Ordering::Less)
    } else if x > y {
        Ok(Ordering::Greater)
    } else {
        Ok(Ordering::Equal)
    }
}

pub open spec fn min_int(a: int, b: int) -> int {
    if a <= b {
        a
    } else {
        b
    }
}

pub open spec fn max_int(a: int, b: int) -> int {
    if a >= b {
        a
    } else {
        b
    }
}

/// The bases two intervals share: `min(ends) - max(starts)`.
pub open spec fn intersection(a_start: int, a_end: int, b_start: int, b_end: int) -> int {
    min_int(a_end, b_end) - max_int(a_start, b_start)
}

/// The length of the shorter interval.
pub open spec fn shorter_len(a_start: int, a_end: int, b_start: int, b_end: int) -> int {
    min_int(a_end - a_start, b_end - b_start)
}

/// Two intervals share bases, and the shared part over the shorter length
/// exceeds `max_ppm` parts per million.
pub open spec fn overlaps(a_start: int, a_end: int, b_start: int, b_end: int, max_ppm: int) -> bool {
    let inter = intersection(a_start, a_end, b_start, b_end);
    inter > 0 && inter * 1_000_000 > max_ppm * shorter_len(a_start, a_end, b_start, b_end)
}

/// Whether `[a_start, a_end]` and `[b_start, b_end]` overlap by more than
/// `max_ppm` parts per million of the shorter one.
pub fn overlap(a_start: &i64, a_end: &i64, b_start: &i64, b_end: &i64, max_ppm: u32) -> (r: bool)
    ensures
        r == overlaps(*a_start as int, *a_end as int, *b_start as int, *b_end as int, max_ppm as int),
{
    let lo: i128 = if *a_start >= *b_start { *a_start as i128 } else { *b_start as i128 };
    let hi: i128 = if *a_end <= *b_end { *a_end as i128 } else { *b_end as i128 };
    let inter: i128 = hi - lo;
    let la: i128 = *a_end as i128 - *a_start as i128;
    let lb: i128 = *b_end as i128 - *b_start as i128;
    let shorter: i128 = if la <= lb { la } else { lb };
    if inter <= 0 {
        return false;
    }
    assert(0 < inter <= 0x1_0000_0000_0000_0000i128);
    assert(-0x1_0000_0000_0000_0000i128 <= shorter <= 0x1_0000_0000_0000_0000i128);
    assert(inter * 1_000_000 <= 0x1_0000_0000_0000_0000i128 * 1_000_000) by (nonlinear_arith)
        requires
            0 < inter <= 0x1_0000_0000_0000_0000i128,
    ;
    assert(-0x1_0000_0000_0000_0000i128 * 0xffff_ffff <= max_ppm as i128 * shorter
        <= 0x1_0000_0000_0000_0000i128 * 0xffff_ffff) by (nonlinear_arith)
        requires
            -0x1_0000_0000_0000_0000i128 <= shorter <= 0x1_0000_0000_0000_0000i128,
            0 <= max_ppm <= 0xffff_ffff,
    ;
    inter * 1_000_000 > max_ppm as i128 * shorter
}

/// An overlap means the intervals intersect, holds the same either way
/// round, and its fraction lies in the interval from the threshold
/// (excluded) to one (included).
pub proof fn lemma_overlap_laws(a_start: int, a_end: int, b_start: int, b_end: int, max_ppm: int)
    requires
        max_ppm >= 0,
    ensures
        a_end < b_start || a_start > b_end ==> !overlaps(a_start, a_end, b_start, b_end, max_ppm),
        overlaps(a_start, a_end, b_start, b_end, max_ppm) == overlaps(b_start, b_end, a_start, a_end, max_ppm),
        overlaps(a_start, a_end, b_start, b_end, max_ppm) ==> {
            let inter = intersection(a_start, a_end, b_start, b_end);
            let shorter = shorter_len(a_start, a_end, b_start, b_end);
            &&& 0 < inter <= shorter
            &&& inter * 1_000_000 > max_ppm * shorter
        },
{
}

/// `(keys[x], x)` comes before `(keys[y], y)`.
pub open spec fn key_index_lt(keys: Seq<i64>, x: int, y: int) -> bool {
    keys[x] < keys[y] || (keys[x] == keys[y] && x < y)
}

/// `order` lists indices of `keys` by ascending key, ties by index.
pub open spec fn is_key_order(keys: Seq<i64>, order: Seq<usize>, n: int) -> bool {
    &&& forall|q: int| 0 <= q < order.len() ==> #[trigger] order[q] < n
    &&& forall|q: int|
        0 <= q < order.len() - 1 ==> key_index_lt(keys, #[trigger] order[q] as int, order[q + 1] as int)
}

/// The first position at or after `p` in `order` whose key exceeds `k`.
pub open spec fn first_greater(keys: Seq<i64>, order: Seq<usize>, k: i64, p: int) -> int
    decreases order.len() - p,
{
    if p >= order.len() || keys[order[p] as int] > k {
        p
    } else {
        first_greater(keys, order, k, p + 1)
    }
}

/// The indices `0..n` of `keys` in stable ascending order of key: each index
/// goes after every earlier one whose key is not greater.
pub open spec fn key_order(keys: Seq<i64>, n: nat) -> Seq<usize>
    decreases n,
{
    if n == 0 {
        Seq::empty()
    } else {
        let o = key_order(keys, (n - 1) as nat);
        o.insert(first_greater(keys, o, keys[n - 1], 0), (n - 1) as usize)
    }
}

/// The indices of `keys` in the order of a stable ascending sort: `(key, index)`
/// strictly increasing, each index once.
pub fn stable_key_order(keys: &Vec<i64>) -> (r: Vec<usize>)
    ensures
        r@ == key_order(keys@, keys@.len()),
        r@.len() == keys@.len(),
        is_key_order(keys@, r@, keys@.len() as int),
{
    let mut order: Vec<usize> = Vec::new();
    let mut i: usize = 0;
    while i < keys.len()
        invariant
            i <= keys@.len(),
            order@.len() == i,
            order@ == key_order(keys@, i as nat),
            is_key_order(keys@, order@, i as int),
        decreases keys@.len() - i,
    {
        let k = keys[i];
        let mut p: usize = 0;
        while p < order.len() && keys[order[p]] <= k
            invariant
                p <= order@.len(),
                order@.len() == i,
                i < keys@.len(),
                is_key_order(keys@, order@, i as int),
                order@ == key_order(keys@, i as nat),
                k == keys@[i as int],
                first_greater(keys@, order@, k, 0) == first_greater(keys@, order@, k, p as int),
                forall|q: int| 0 <= q < p ==> keys@[#[trigger] order@[q] as int] <= k,
            decreases order@.len() - p,
        {
            p = p + 1;
        }
        let ghost old_order = order@;
        assert(first_greater(keys@, old_order, k, p as int) == p);
        order.insert(p, i);
        assert(order@ == key_order(keys@, (i + 1) as nat));
        assert forall|q: int| 0 <= q < order@.len() implies #[trigger] order@[q] < i + 1 by {
            if q < p {
                assert(order@[q] == old_order[q]);
            } else if q > p {
                assert(order@[q] == old_order[q - 1]);
            }
        }
        assert forall|q: int| 0 <= q < order@.len() - 1 implies key_index_lt(
            keys@,
            #[trigger] order@[q] as int,
            order@[q + 1] as int,
        ) by {
            if q + 1 < p {
                assert(order@[q] == old_order[q]);
                assert(order@[q + 1] == old_order[q + 1]);
            } else if q + 1 == p {
                assert(order@[q] == old_order[q]);
                assert(keys@[old_order[q] as int] <= k);
            } else if q == p {
                assert(order@[q + 1] == old_order[q]);
            } else {
                assert(order@[q] == old_order[q - 1]);
                assert(order@[q + 1] == old_order[q]);
            }
        }
        i = i + 1;
    }
    order
}

} // verus!
