use excord_lr::{
    extract_indel_events, merge_events, AlignEventType, AlignmentEvent, CigarKind, CigarOp,
};

fn ops(list: &[(CigarKind, u32)]) -> Vec<CigarOp> {
    list.iter().map(|&(kind, len)| CigarOp { kind, len }).collect()
}

fn coords(e: &AlignmentEvent) -> (u32, u32, u32, u32) {
    (e.lstart, e.lend, e.rstart, e.rend)
}

use CigarKind::{Del, Ins, Match, SoftClip};

#[test]
fn alignment_event_new_places_both_intervals() {
    let e = AlignmentEvent::new("chr5", &10, &20, &60, &1000, &-1, Some(AlignEventType::Del));
    assert_eq!(e.lchrom, "5");
    assert_eq!(e.rchrom, "5");
    assert_eq!(coords(&e), (1000, 1010, 1070, 1090));
    assert_eq!(e.lstrand, -1);
    assert_eq!(e.events_num, 1);
    assert_eq!(e.svtype, AlignEventType::Del);
}

#[test]
fn two_distant_deletions_stay_apart() {
    let c = ops(&[(Match, 10), (Del, 60), (Match, 10), (Del, 60), (Match, 10)]);
    let evs = extract_indel_events("chr3", 1000, 1, &c, 50).unwrap();
    assert_eq!(evs.len(), 2);
    assert_eq!(coords(&evs[0]), (1000, 1010, 1070, 1150));
    assert_eq!(coords(&evs[1]), (1000, 1080, 1140, 1150));
    assert_eq!(evs[0].lchrom, "3");
    let merged = merge_events(&evs, 5);
    assert_eq!(merged.len(), 2);
    assert_eq!(coords(&merged[0]), (1000, 1010, 1070, 1150));
    assert_eq!(coords(&merged[1]), (1000, 1080, 1140, 1150));
}

#[test]
fn two_close_deletions_merge() {
    let c = ops(&[(Match, 10), (Del, 60), (Match, 10), (Del, 60), (Match, 10)]);
    let evs = extract_indel_events("chr3", 1000, 1, &c, 50).unwrap();
    let merged = merge_events(&evs, 11);
    assert_eq!(merged.len(), 1);
    assert_eq!(coords(&merged[0]), (1000, 1010, 1140, 1150));
    assert_eq!(merged[0].svtype, AlignEventType::Del);
    assert_eq!(merged[0].events_num, 1);
}

#[test]
fn short_indels_give_no_event() {
    let c = ops(&[(Match, 10), (Del, 49), (Match, 10), (Ins, 49), (Match, 10)]);
    assert!(extract_indel_events("1", 0, 1, &c, 50).unwrap().is_empty());
}

#[test]
fn insertion_is_a_zero_width_split() {
    let c = ops(&[(SoftClip, 5), (Match, 10), (Ins, 100), (Match, 10)]);
    let evs = extract_indel_events("1", 500, 1, &c, 50).unwrap();
    assert_eq!(evs.len(), 1);
    assert_eq!(coords(&evs[0]), (500, 510, 510, 610));
    assert_eq!(evs[0].svtype, AlignEventType::Ins);
}

#[test]
fn insertions_are_never_merged() {
    let c = ops(&[(Match, 10), (Ins, 60), (Del, 60), (Match, 10)]);
    let evs = extract_indel_events("1", 0, 1, &c, 50).unwrap();
    assert_eq!(evs.len(), 2);
    assert_eq!(merge_events(&evs, 1000).len(), 2);
}

#[test]
fn coordinates_beyond_u32_give_none() {
    let c = ops(&[(Match, 10), (Del, 60), (Match, 10)]);
    assert!(extract_indel_events("1", -1, 1, &c, 50).is_none());
    assert!(extract_indel_events("1", 4294967250, 1, &c, 50).is_none());
}

#[test]
fn three_close_deletions_merge_pairwise() {
    let c = ops(&[
        (Match, 10),
        (Del, 60),
        (Match, 2),
        (Del, 60),
        (Match, 2),
        (Del, 60),
        (Match, 10),
    ]);
    let evs = extract_indel_events("1", 1000, 1, &c, 50).unwrap();
    assert_eq!(evs.len(), 3);
    let merged = merge_events(&evs, 5);
    assert_eq!(merged.len(), 2);
    assert_eq!(coords(&merged[0]), (1000, 1010, 1132, 1204));
    assert_eq!(coords(&merged[1]), (1000, 1072, 1194, 1204));
}

#[test]
fn merging_again_changes_nothing() {
    let c = ops(&[
        (Match, 10),
        (Del, 60),
        (Match, 2),
        (Del, 60),
        (Match, 2),
        (Del, 60),
        (Match, 10),
    ]);
    let evs = extract_indel_events("1", 1000, 1, &c, 50).unwrap();
    let once = merge_events(&evs, 5);
    let twice = merge_events(&once, 5);
    assert_eq!(once.len(), twice.len());
    for (a, b) in once.iter().zip(twice.iter()) {
        assert_eq!(coords(a), coords(b));
    }
    let single = merge_events(&evs[..1].to_vec(), 5);
    assert_eq!(single.len(), 1);
    assert!(merge_events(&Vec::new(), 5).is_empty());
}
