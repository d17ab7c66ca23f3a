//! Decision logic of an AV1 encoder, with its behaviour stated as contracts.

pub mod util;
pub mod context;
pub mod encoder;
pub mod harvest;
pub mod mc;
pub mod outside;
pub mod partition;
pub mod plane;
pub mod predict;
pub mod prof;
pub mod racecar;
pub mod tempfilter;
pub mod text;
pub mod transform;
pub mod varpart;
pub mod warp;
