use excord_lr::{format_evidence, BreakpointEvent, EvidenceTag};

fn event(tag: EvidenceTag) -> BreakpointEvent {
    BreakpointEvent {
        lchrom: "1".to_string(),
        lstart: 50,
        lend: 79,
        lstrand: -1,
        rchrom: "2".to_string(),
        rstart: 100,
        rend: 119,
        rstrand: 1,
        events_num: 1,
        tag,
    }
}

#[test]
fn plain_line_has_nine_fields() {
    assert_eq!(
        format_evidence(&event(EvidenceTag::SplitRead), false, "r1", 1, 2048),
        "1\t50\t79\t-1\t2\t100\t119\t1\t1\n"
    );
}

#[test]
fn verbose_line_adds_provenance() {
    assert_eq!(
        format_evidence(&event(EvidenceTag::SplitRead), true, "r1", -1, 2048),
        "1\t50\t79\t-1\t2\t100\t119\t1\t1\texcord-lr-split-read\tr1\t-1\t2048\n"
    );
    assert_eq!(
        format_evidence(&event(EvidenceTag::LargeInsertionTwoAlignments), true, "q", 1, 0),
        "1\t50\t79\t-1\t2\t100\t119\t1\t1\texcord-lr-alignment-event-large-ins-two-alignments\tq\t1\t0\n"
    );
}

#[test]
fn zero_and_large_numbers_render_in_decimal() {
    let mut e = event(EvidenceTag::AlignmentEvent);
    e.lstart = 0;
    e.rend = i64::MAX;
    e.lstrand = 0;
    assert_eq!(
        format_evidence(&e, false, "", 0, 0),
        "1\t0\t79\t0\t2\t100\t9223372036854775807\t1\t1\n"
    );
}
