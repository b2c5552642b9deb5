use excord_lr::cigar::cigar_to_string;
use excord_lr::{find_first_match_pos, parse_cigar, CigarKind, CigarOp, CigarTotals, EvidenceError};

fn op(kind: CigarKind, len: u32) -> CigarOp {
    CigarOp { kind, len }
}

#[test]
fn parse_cigar_sums_each_kind() {
    let t = parse_cigar("20S30M100S").unwrap();
    assert_eq!(t.soft_clip, 120);
    assert_eq!(t.matched, 30);
    assert_eq!(t.del, 0);
    assert_eq!(t.hard_clip, 0);
    let t = parse_cigar("5H10S2I3D4N30M1P6=7X").unwrap();
    assert_eq!(
        t,
        CigarTotals {
            matched: 30,
            ins: 2,
            del: 3,
            ref_skip: 4,
            soft_clip: 10,
            hard_clip: 5,
            pad: 1,
            equal: 6,
            diff: 7,
        }
    );
}

#[test]
fn parse_cigar_accepts_leading_zeros_and_empty_text() {
    assert_eq!(parse_cigar("05M").unwrap().matched, 5);
    assert_eq!(parse_cigar("").unwrap(), CigarTotals::zero());
}

#[test]
fn parse_cigar_refuses_malformed_text() {
    assert_eq!(parse_cigar("10M5Q"), Err(EvidenceError::MalformedCigar));
    assert_eq!(parse_cigar("M10"), Err(EvidenceError::MalformedCigar));
    assert_eq!(parse_cigar("10"), Err(EvidenceError::MalformedCigar));
    assert_eq!(parse_cigar("*"), Err(EvidenceError::MalformedCigar));
    assert_eq!(parse_cigar("4294967296M"), Err(EvidenceError::MalformedCigar));
}

#[test]
fn parse_cigar_refuses_totals_beyond_u32() {
    assert_eq!(parse_cigar("4294967295M").unwrap().matched, 4294967295);
    assert_eq!(parse_cigar("4294967295M1M"), Err(EvidenceError::MalformedCigar));
}

#[test]
fn first_match_offset_counts_query_consuming_kinds() {
    assert_eq!(find_first_match_pos("20S30M100S"), Ok(20));
    assert_eq!(find_first_match_pos("50S30M50S"), Ok(50));
    assert_eq!(find_first_match_pos("90S30M30S"), Ok(90));
    assert_eq!(find_first_match_pos("30M100S"), Ok(0));
    assert_eq!(find_first_match_pos("5H10S2I3D4N1P30M"), Ok(12));
    assert_eq!(find_first_match_pos("5=3X10M"), Ok(8));
}

#[test]
fn first_match_offset_without_match_is_malformed() {
    assert_eq!(find_first_match_pos("100S"), Err(EvidenceError::MalformedCigar));
    assert_eq!(find_first_match_pos("50S50="), Err(EvidenceError::MalformedCigar));
    assert_eq!(find_first_match_pos("x"), Err(EvidenceError::MalformedCigar));
}

#[test]
fn ops_render_as_cigar_text() {
    let ops = vec![op(CigarKind::SoftClip, 20), op(CigarKind::Match, 30), op(CigarKind::Del, 105)];
    assert_eq!(cigar_to_string(&ops), "20S30M105D");
    assert_eq!(cigar_to_string(&Vec::new()), "");
    let t = CigarTotals::from_ops(&ops).unwrap();
    assert_eq!(t.soft_clip, 20);
    assert_eq!(t.del, 105);
}

#[test]
fn totals_from_ops_refuse_overflow() {
    let ops = vec![op(CigarKind::Ins, u32::MAX), op(CigarKind::Ins, 1)];
    assert_eq!(CigarTotals::from_ops(&ops), Err(EvidenceError::MalformedCigar));
}

#[test]
fn rendered_text_parses_back() {
    let ops = vec![
        op(CigarKind::HardClip, 7),
        op(CigarKind::SoftClip, 1200),
        op(CigarKind::Match, 30),
        op(CigarKind::Ins, 0),
        op(CigarKind::Diff, 4294967295),
    ];
    let text = cigar_to_string(&ops);
    assert_eq!(text, "7H1200S30M0I4294967295X");
    let t = parse_cigar(&text).unwrap();
    assert_eq!(t, CigarTotals::from_ops(&ops).unwrap());
    assert_eq!(find_first_match_pos(&text), Ok(1200));
}
