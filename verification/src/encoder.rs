//! The encoder's decisions: sequence and frame set-up, block syntax, transform
//! blocks, the partition search, tiles and packets.

pub mod audit;
pub mod bitstream;
pub mod block;
pub mod frame;
pub mod loop_filter;
pub mod motion;
pub mod partition_search;
pub mod segmentation;
pub mod sequence;
pub mod tile;
pub mod txfm;
