use vstd::prelude::*;

use crate::breakpoint::{BreakpointEvent, BreakpointView, EvidenceTag};
use crate::text::{push_char, push_decimal, push_text, signed_decimal};

verus! {

/// The literal that names each kind of evidence in verbose output.
pub open spec fn tag_text(tag: EvidenceTag) -> Seq<char> {
    match tag {
        EvidenceTag::SplitRead => "excord-lr-split-read"@,
        EvidenceTag::AlignmentEvent => "excord-lr-alignment-event"@,
        EvidenceTag::LargeInsertion => "excord-lr-alignment-event-large-ins"@,
        EvidenceTag::LargeInsertionOneAlignment => "excord-lr-alignment-event-large-ins-one-alignments"@,
        EvidenceTag::LargeInsertionTwoAlignments => "excord-lr-alignment-event-large-ins-two-alignments"@,
    }
}

/// The literal that names a kind of evidence.
pub fn tag_name(tag: EvidenceTag) -> (r: &'static str)
    ensures
        r@ == tag_text(tag),
{
    match tag {
        EvidenceTag::SplitRead => "excord-lr-split-read",
        EvidenceTag::AlignmentEvent => "excord-lr-alignment-event",
        EvidenceTag::LargeInsertion => "excord-lr-alignment-event-large-ins",
        EvidenceTag::LargeInsertionOneAlignment => "excord-lr-alignment-event-large-ins-one-alignments",
        EvidenceTag::LargeInsertionTwoAlignments => "excord-lr-alignment-event-large-ins-two-alignments",
    }
}

pub open spec fn tab() -> Seq<char> {
    seq!['\t']
}

/// The nine fields every evidence line has, tab-separated: both intervals
/// with their strands, then the event count.
pub open spec fn evidence_fields(ev: BreakpointView) -> Seq<char> {
    ev.lchrom + tab() + signed_decimal(ev.lstart) + tab() + signed_decimal(ev.lend) + tab()
        + signed_decimal(ev.lstrand) + tab() + ev.rchrom + tab() + signed_decimal(ev.rstart) + tab()
        + signed_decimal(ev.rend) + tab() + signed_decimal(ev.rstrand) + tab() + signed_decimal(
        ev.events_num,
    )
}

/// One output line; verbose lines add the tag, the read name, the record's
/// strand and its flags.
pub open spec fn evidence_line(
    ev: BreakpointView,
    verbose: bool,
    qname: Seq<char>,
    record_strand: int,
    record_flags: int,
) -> Seq<char> {
    if verbose {
        evidence_fields(ev) + tab() + tag_text(ev.tag) + tab() + qname + tab() + signed_decimal(
            record_strand,
        ) + tab() + signed_decimal(record_flags) + seq!['\n']
    } else {
        evidence_fields(ev) + seq!['\n']
    }
}

/// Renders one piece of evidence as an output line.
pub fn format_evidence(
    ev: &BreakpointEvent,
    verbose: bool,
    qname: &str,
    record_strand: i32,
    record_flags: u16,
) -> (r: String)
    ensures
        r@ == evidence_line(ev@, verbose, qname@, record_strand as int, record_flags as int),
{
    let mut out = String::new();
    push_text(&mut out, ev.lchrom.as_str());
    assert(out@ =~= ev.lchrom@);
    push_char(&mut out, '\t');
    push_decimal(&mut out, ev.lstart as i128);
    push_char(&mut out, '\t');
    push_decimal(&mut out, ev.lend as i128);
    push_char(&mut out, '\t');
    push_decimal(&mut out, ev.lstrand as i128);
    push_char(&mut out, '\t');
    push_text(&mut out, ev.rchrom.as_str());
    push_char(&mut out, '\t');
    push_decimal(&mut out, ev.rstart as i128);
    push_char(&mut out, '\t');
    push_decimal(&mut out, ev.rend as i128);
    push_char(&mut out, '\t');
    push_decimal(&mut out, ev.rstrand as i128);
    push_char(&mut out, '\t');
    push_decimal(&mut out, ev.events_num as i128);
    assert(out@ =~= evidence_fields(ev@));
    if verbose {
        push_char(&mut out, '\t');
        push_text(&mut out, tag_name(ev.tag));
        push_char(&mut out, '\t');
        push_text(&mut out, qname);
        push_char(&mut out, '\t');
        push_decimal(&mut out, record_strand as i128);
        push_char(&mut out, '\t');
        push_decimal(&mut out, record_flags as i128);
    }
    push_char(&mut out, '\n');
    assert(out@ =~= evidence_line(ev@, verbose, qname@, record_strand as int, record_flags as int));
    out
}

} // verus!
