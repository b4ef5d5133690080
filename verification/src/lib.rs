//! Auxiliary DB schema, accessors, and writers for on-disk persisted approval storage
//! data.
//!
//! We persist data to disk although it is not intended to be used across runs of the
//! program. This is because under medium to long periods of finality stalling, for whatever
//! reason that may be, the amount of data we'd need to keep would be potentially too large
//! for memory.
//!
//! With tens or hundreds of parachains, hundreds of validators, and parablocks
//! in every relay chain block, there can be a humongous amount of information to reference
//! at any given time.
//!
//! As such, we provide a function from this crate to clear the database on start-up.
//!
//! The three writers, [`add_block_entry`], [`canonicalize`] and [`clear`], do not touch the store
//! themselves. Each asks for the values that it needs, one after the other, and ends with the
//! writes that are to be performed.
pub mod add_block;
pub mod add_effects;
pub mod add_laws;
pub mod adding;
pub mod assignments;
pub mod batch_laws;
pub mod bitfield;
pub mod branch_laws;
pub mod canonicalize;
pub mod canonicalize_laws;
pub mod clear;
pub mod clear_laws;
pub mod cli;
pub mod codec;
pub mod consistency;
pub mod hashes;
pub mod history;
pub mod keys;
pub mod operation;
pub mod outside;
pub mod prune_effects;
pub mod pruning;
pub mod pruning_laws;
pub mod report_laws;
pub mod scale;
pub mod scale_laws;
pub mod sequences;
pub mod store;
pub mod store_laws;
pub mod tally;
pub mod types;
pub mod view_laws;

pub use crate::add_block::{
    add_block_entry, begin_adding, AddBlockEntry, AddStep, AskedBlockEntry,
};
pub use crate::assignments::BlockAssignments;
pub use crate::canonicalize::{canonicalize, Canonicalize};
pub use crate::clear::{clear, Clear};
pub use crate::cli::{
    Cli, ExportGenesisStateCommand, ExportGenesisWasmCommand, RunCmd, SpecSource, Subcommand,
};
pub use crate::codec::Stored;
pub use crate::keys::{
    block_entry_key, blocks_at_height_key, candidate_entry_key, stored_blocks_key,
};
pub use crate::operation::{run, Operation, RunError, Step};
pub use crate::outside::Bitfield;
pub use crate::store::{
    load_block_entry, load_blocks_at_height, load_candidate_entry, load_decode,
    load_stored_blocks, Error, WriteBatch,
};
pub use crate::types::{
    ApprovalEntry, BlockEntry, BlockNumber, CandidateEntry, CandidateHash, CandidateReceipt,
    CoreIndex, DelayTranche, GroupIndex, NewCandidateInfo, OurAssignment, SessionIndex, Slot,
    StoredBlockRange, Tick, TrancheEntry, ValidatorIndex, H256,
};
