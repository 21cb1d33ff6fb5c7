//! Reconstruction of full block-device images from Android sparse-data
//! transfers: a block-range-set parser, a transfer-list parser, and a replay
//! engine that turns the parsed commands into a byte-exact output image.
use vstd::prelude::*;

mod bytes;
mod decoder;
mod error;
mod rangeset;
mod transfer_list;

pub use decoder::cmds_max_end;
pub use decoder::decode_spec;
pub use decoder::image_size;
pub use decoder::lemma_erase_zero_no_io;
pub use decoder::lemma_max_end_bounds;
pub use decoder::lemma_max_end_reached;
pub use decoder::lemma_replay_consumes;
pub use decoder::lemma_replay_op_effect;
pub use decoder::lemma_splice_effect;
pub use decoder::new_ranges;
pub use decoder::ops_of;
pub use decoder::ops_total_len;
pub use decoder::range_count;
pub use decoder::replay_ops;
pub use decoder::set_max_end;
pub use decoder::splice;
pub use decoder::zero_image;
pub use decoder::SparseDecoder;
pub use decoder::WriteOp;

pub use bytes::dec_val;
pub use bytes::is_uint_token;
pub use bytes::lines_of;
pub use bytes::split_on;
pub use error::Error;
pub use error::ErrorSpec;
pub use rangeset::lemma_bad_count_rejected;
pub use rangeset::lemma_range_set_round_trip;
pub use rangeset::parse_range_set_spec;
pub use rangeset::range_tokens;
pub use rangeset::ranges_of_tokens;
pub use rangeset::Iter;
pub use rangeset::Range;
pub use rangeset::RangeSet;
pub use transfer_list::cmd_ranges;
pub use transfer_list::cmd_wf;
pub use transfer_list::commands_wf;
pub use transfer_list::line_command;
pub use transfer_list::parse_commands_spec;
pub use transfer_list::transfer_list_spec;
pub use transfer_list::Command;
pub use transfer_list::CommandModel;
pub use transfer_list::TransferList;
pub use transfer_list::TransferListModel;

verus! {

/// Size in bytes of one image block; a block index times this constant is the
/// byte offset of that block in the destination image.
pub const BLOCK_SIZE: u64 = 4096;

} // verus!
