//! Structural-variant evidence from aligned reads.
//!
//! A read's primary alignment and its supplementary alignments become
//! segments; the split-read assembler orders them along the read and reports
//! a breakpoint between each adjacent pair, plus markers for likely large
//! insertions; the CIGAR walk reports long deletions and insertions inside
//! the primary alignment and merges deletions that one event has split.
//! Every step states its result in its contract.

pub mod alignment_event;
pub mod alignment_pos;
pub mod breakpoint;
pub mod cigar;
pub mod error;
pub mod format;
pub mod indel;
pub mod order;
pub mod record;
pub mod split_read_event;
pub mod supplementary;
pub mod text;

pub use alignment_event::{AlignEventType, AlignmentEvent};
pub use alignment_pos::AlignmentPos;
pub use breakpoint::{assemble_split_read, BreakpointEvent, EvidenceTag};
pub use cigar::{find_first_match_pos, parse_cigar, CigarKind, CigarOp, CigarTotals};
pub use error::EvidenceError;
pub use format::format_evidence;
pub use indel::{extract_indel_events, merge_events};
pub use order::{alignment_pos_cmp, overlap, splitter_order_cmp};
pub use record::{passes_filters, process_record, AlignmentRecord, EvidenceConfig};
pub use split_read_event::SplitReadEvent;
pub use supplementary::parse_supplementary_alignment;
