use vstd::prelude::*;

use crate::split_read_event::{normalize_chrom, strip_chr};

verus! {

/// The kind of an event found inside one alignment.
#[derive(Clone, Copy, Debug, PartialEq, Eq, Structural)]
pub enum AlignEventType {
    Ins,
    Del,
}

/// An event found inside one alignment: a left and a right interval around
/// a deletion, or around an insertion point.
#[derive(Clone, Debug)]
pub struct AlignmentEvent {
    pub lchrom: String,
    pub lstart: u32,
    pub lend: u32,
    pub lstrand: i32,
    pub rchrom: String,
    pub rstart: u32,
    pub rend: u32,
    pub rstrand: i32,
    pub events_num: i32,
    pub svtype: AlignEventType,
}

/// What an `AlignmentEvent` holds, with texts as sequences.
pub struct EventView {
    pub lchrom: Seq<char>,
    pub lstart: int,
    pub lend: int,
    pub lstrand: int,
    pub rchrom: Seq<char>,
    pub rstart: int,
    pub rend: int,
    pub rstrand: int,
    pub events_num: int,
    pub svtype: AlignEventType,
}

impl View for AlignmentEvent {
    type V = EventView;

    open spec fn view(&self) -> EventView {
        EventView {
            lchrom: self.lchrom@,
            lstart: self.lstart as int,
            lend: self.lend as int,
            lstrand: self.lstrand as int,
            rchrom: self.rchrom@,
            rstart: self.rstart as int,
            rend: self.rend as int,
            rstrand: self.rstrand as int,
            events_num: self.events_num as int,
            svtype: self.svtype,
        }
    }
}

/// The views of a list of events.
pub open spec fn views(v: Seq<AlignmentEvent>) -> Seq<EventView> {
    v.map_values(|e: AlignmentEvent| e@)
}

impl AlignmentEvent {
    /// The event at reference position `pos` on `chrom`: the left interval
    /// covers `left_consume` bases from `pos`, the right one starts
    /// `event_len` bases after it and covers `right_consume` bases.
    pub fn new(
        chrom: &str,
        left_consume: &u32,
        right_consume: &u32,
        event_len: &u32,
        pos: &i64,
        strand: &i32,
        sv_type: Option<AlignEventType>,
    ) -> (r: AlignmentEvent)
        requires
            sv_type is Some,
            0 <= *pos,
            *pos + *left_consume + *event_len + *right_consume <= u32::MAX,
        ensures
            r@ == (EventView {
                lchrom: strip_chr(chrom@),
                lstart: *pos as int,
                lend: *pos + *left_consume,
                lstrand: *strand as int,
                rchrom: strip_chr(chrom@),
                rstart: *pos + *left_consume + *event_len,
                rend: *pos + *left_consume + *event_len + *right_consume,
                rstrand: *strand as int,
                events_num: 1,
                svtype: sv_type->0,
            }),
    {
        let chrom_clean = normalize_chrom(chrom);
        let pos2 = *pos as u32;
        let svtype = match sv_type {
            Some(t) => t,
            None => AlignEventType::Del,
        };
        AlignmentEvent {
            lchrom: chrom_clean.clone(),
            lstart: pos2,
            lend: pos2 + *left_consume,
            lstrand: *strand,
            rchrom: chrom_clean,
            rstart: pos2 + *left_consume + *event_len,
            rend: pos2 + *left_consume + *event_len + *right_consume,
            rstrand: *strand,
            events_num: 1i32,
            svtype,
        }
    }

    /// A copy of this event.
    pub fn duplicate(&self) -> (r: AlignmentEvent)
        ensures
            r@ == self@,
    {
        AlignmentEvent {
            lchrom: self.lchrom.clone(),
            lstart: self.lstart,
            lend: self.lend,
            lstrand: self.lstrand,
            rchrom: self.rchrom.clone(),
            rstart: self.rstart,
            rend: self.rend,
            rstrand: self.rstrand,
            events_num: self.events_num,
            svtype: self.svtype,
        }
    }
}

} // verus!
