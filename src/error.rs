use vstd::prelude::*;

verus! {

/// Why a read, or one of its alignments, yields no evidence.
#[derive(Clone, Copy, Debug, PartialEq, Eq, Structural)]
pub enum EvidenceError {
    /// A CIGAR that does not parse, whose per-kind totals do not fit in `u32`,
    /// or that has no match operation where a read offset is needed.
    MalformedCigar,
    /// A supplementary descriptor without exactly six fields, or whose
    /// position, mapping quality or edit distance is not an integer in range.
    InvalidSupplementaryField,
    /// A supplementary descriptor whose strand is neither `+` nor `-`.
    UnknownStrandSymbol,
    /// A read with more supplementary alignments than the configured maximum.
    ExcessSupplementaryCount,
    /// A primary alignment whose last reference base lies beyond what `i64` holds.
    PositionOutOfRange,
}

} // verus!
