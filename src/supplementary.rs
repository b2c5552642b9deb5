use vstd::prelude::*;

use crate::cigar::{
    parse_cigar_ops, parse_cigar_text, totals_fit, totals_spec, total_of, CigarKind, CigarTotals,
};
use crate::error::EvidenceError;
use crate::split_read_event::{split_span, strip_chr, SegView, SplitReadEvent};
use crate::text::{chars_of, int_text, parse_i64, parse_u8, split_ranges, split_spec, string_of, sub_vec};

verus! {

/// `v` holds an integer that fits in `i64`.
pub open spec fn fits_i64(v: Option<int>) -> bool {
    v matches Some(x) && i64::MIN <= x <= i64::MAX
}

/// The strand that a descriptor's strand field stands for.
pub open spec fn strand_of_symbol(f: Seq<char>) -> Option<i32> {
    if f == seq!['+'] {
        Some(1i32)
    } else if f == seq!['-'] {
        Some(-1i32)
    } else {
        None
    }
}

/// The reference span of the operations that CIGAR text spells.
pub open spec fn text_span(f: Seq<char>) -> int {
    let ops = parse_cigar_text(f)->0;
    (total_of(ops, CigarKind::Del) + total_of(ops, CigarKind::Match) + total_of(
        ops,
        CigarKind::Equal,
    ) + total_of(ops, CigarKind::Diff)) as int
}

/// Why a supplementary descriptor `contig,pos,strand,CIGAR,mapq,NM` is
/// refused, checked field by field in that order and last whether the
/// segment's 0-based start and inclusive end fit in `i64`; `None` when it
/// is sound.
pub open spec fn descriptor_error(s: Seq<char>) -> Option<EvidenceError> {
    let f = split_spec(s, ',');
    if f.len() != 6 {
        Some(EvidenceError::InvalidSupplementaryField)
    } else if !fits_i64(int_text(f[1], true)) {
        Some(EvidenceError::InvalidSupplementaryField)
    } else if strand_of_symbol(f[2]) is None {
        Some(EvidenceError::UnknownStrandSymbol)
    } else if !(parse_cigar_text(f[3]) matches Some(ops) && totals_fit(ops)) {
        Some(EvidenceError::MalformedCigar)
    } else if !(int_text(f[4], false) matches Some(q) && q <= u8::MAX) {
        Some(EvidenceError::InvalidSupplementaryField)
    } else if !fits_i64(int_text(f[5], true)) {
        Some(EvidenceError::InvalidSupplementaryField)
    } else if !(i64::MIN < int_text(f[1], true)->0 && i64::MIN <= int_text(f[1], true)->0 - 2
        + text_span(f[3]) <= i64::MAX) {
        Some(EvidenceError::InvalidSupplementaryField)
    } else {
        None
    }
}

/// The segment that a sound descriptor gives, its 1-based position made 0-based.
pub open spec fn descriptor_view(s: Seq<char>) -> SegView {
    let f = split_spec(s, ',');
    let t = totals_spec(parse_cigar_text(f[3])->0);
    let start = int_text(f[1], true)->0 - 1;
    SegView {
        chrom: strip_chr(f[0]),
        start,
        end: start + split_span(t) - 1,
        cigar_map: t,
        strand: strand_of_symbol(f[2])->0 as int,
        mapq: int_text(f[4], false)->0,
        raw_cigar: f[3],
    }
}

/// Parses one supplementary descriptor held as characters.
pub fn parse_descriptor(v: &Vec<char>) -> (r: Result<SplitReadEvent, EvidenceError>)
    ensures
        r is Err <==> descriptor_error(v@) is Some,
        r matches Err(e) ==> descriptor_error(v@) == Some(e),
        r matches Ok(seg) ==> seg@ == descriptor_view(v@),
{
    let ghost f = split_spec(v@, ',');
    let ranges = split_ranges(v, ',');
    if ranges.len() != 6 {
        return Err(EvidenceError::InvalidSupplementaryField);
    }
    let (a0, b0) = ranges[0];
    let (a1, b1) = ranges[1];
    let (a2, b2) = ranges[2];
    let (a3, b3) = ranges[3];
    let (a4, b4) = ranges[4];
    let (a5, b5) = ranges[5];
    assert(ranges@[0].0 <= ranges@[0].1 && ranges@[1].0 <= ranges@[1].1 && ranges@[2].0
        <= ranges@[2].1 && ranges@[3].0 <= ranges@[3].1 && ranges@[4].0 <= ranges@[4].1
        && ranges@[5].0 <= ranges@[5].1);
    assert(v@.subrange(a1 as int, b1 as int) == f[1]);
    assert(v@.subrange(a2 as int, b2 as int) == f[2]);
    assert(v@.subrange(a3 as int, b3 as int) == f[3]);
    assert(v@.subrange(a4 as int, b4 as int) == f[4]);
    assert(v@.subrange(a5 as int, b5 as int) == f[5]);
    assert(v@.subrange(a0 as int, b0 as int) == f[0]);
    let pos = match parse_i64(v, a1, b1) {
        None => {
            return Err(EvidenceError::InvalidSupplementaryField);
        },
        Some(p) => p,
    };
    let strand: i32 = if b2 > a2 && b2 - a2 == 1 && v[a2] == '+' {
        assert(f[2] =~= seq!['+']);
        1
    } else if b2 > a2 && b2 - a2 == 1 && v[a2] == '-' {
        assert(f[2] =~= seq!['-']);
        -1
    } else {
        assert(f[2] != seq!['+'] && f[2] != seq!['-']) by {
            if f[2] == seq!['+'] || f[2] == seq!['-'] {
                assert(f[2].len() == 1);
                assert(f[2][0] == v@[a2 as int]);
            }
        }
        return Err(EvidenceError::UnknownStrandSymbol);
    };
    let cig = sub_vec(v, a3, b3);
    let ops = match parse_cigar_ops(&cig) {
        Err(e) => {
            return Err(e);
        },
        Ok(o) => o,
    };
    let totals = match CigarTotals::from_ops(&ops) {
        Err(e) => {
            return Err(e);
        },
        Ok(t) => t,
    };
    let mapq = match parse_u8(v, a4, b4) {
        None => {
            return Err(EvidenceError::InvalidSupplementaryField);
        },
        Some(q) => q,
    };
    match parse_i64(v, a5, b5) {
        None => {
            return Err(EvidenceError::InvalidSupplementaryField);
        },
        Some(_) => {},
    }
    assert(totals.total(CigarKind::Del) == total_of(ops@, CigarKind::Del));
    assert(totals.total(CigarKind::Match) == total_of(ops@, CigarKind::Match));
    assert(totals.total(CigarKind::Equal) == total_of(ops@, CigarKind::Equal));
    assert(totals.total(CigarKind::Diff) == total_of(ops@, CigarKind::Diff));
    assert(split_span(totals) == text_span(f[3]));
    let span: i128 = totals.del as i128 + totals.matched as i128 + totals.equal as i128
        + totals.diff as i128;
    if pos == i64::MIN {
        return Err(EvidenceError::InvalidSupplementaryField);
    }
    let last: i128 = pos as i128 - 2 + span;
    if last < i64::MIN as i128 || last > i64::MAX as i128 {
        return Err(EvidenceError::InvalidSupplementaryField);
    }
    let start: i64 = pos - 1;
    let chrom = string_of(v, a0, b0);
    let raw = string_of(v, a3, b3);
    Ok(SplitReadEvent::new(chrom.as_str(), &start, totals, &strand, &mapq, raw.as_str()))
}

/// Parses one supplementary-alignment descriptor `contig,pos,strand,CIGAR,mapq,NM`.
pub fn parse_supplementary_alignment(s: &str) -> (r: Result<SplitReadEvent, EvidenceError>)
    ensures
        r is Err <==> descriptor_error(s@) is Some,
        r matches Err(e) ==> descriptor_error(s@) == Some(e),
        r matches Ok(seg) ==> seg@ == descriptor_view(s@),
{
    let v = chars_of(s);
    parse_descriptor(&v)
}

} // verus!
