//! Blockbuilding: partial puzzle states made of blocks of pieces.

pub mod block;
pub mod block_list;
pub mod block_list_meta;
pub mod layer_mask;
pub mod pieces;

pub use block::Block;
pub use block_list::BlockList;
pub use block_list_meta::BlockListMeta;
pub use layer_mask::{GripStatus, PackedLayers};
