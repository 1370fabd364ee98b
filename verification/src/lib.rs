//! Decoding of per-base modification calls carried by aligned sequencing reads.
//!
//! A read records its modification calls as a compact tag: for each canonical
//! base and modification code, the number of unmodified occurrences of that
//! base between consecutive modified ones. This crate parses that tag, turns
//! the distances into offsets on the read, projects the offsets onto the
//! direction of the alignment and lifts them to reference coordinates.
//!
//! The stages, leaves first: [`tag`] reads the text of the tag, [`resolve`]
//! places its distances on the read, [`strand`] moves offsets between the
//! direction of sequencing and that of the alignment, [`liftover`] takes
//! them to the reference, [`basemods`] puts the stages together for one
//! record and [`batch`] runs them over a stream of records in chunks.

pub mod basemods;
pub mod batch;
pub mod fault;
pub mod liftover;
pub mod merge;
pub mod offsets;
pub mod record;
pub mod resolve;
pub mod strand;
pub mod tag;

pub use basemods::BaseMods;
pub use batch::{
    extract_chunk, extract_contained, extract_from_record, try_extract_from_record,
    BatchExtractor, CHUNK_SIZE,
};
pub use fault::DecodeFault;
pub use liftover::{liftover_exact, UNRESOLVED};
pub use merge::merge_two_lists;
pub use record::{get_u32_tag, AlignedBlock, AlignmentRecord, AuxField, AuxValue};
pub use resolve::resolve_positions;
pub use strand::positions_on_complimented_sequence;
pub use tag::{decode_tag, TagGroup};
