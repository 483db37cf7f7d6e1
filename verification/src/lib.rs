//! Hiding erasure-correcting codes (HECC) over GF(256).
//!
//! A message of K bytes and T hiding bytes are the coefficients of a
//! polynomial; its values at the points 1..=N are the shards. Any K + T of
//! them give the coefficients back by Lagrange interpolation.
pub mod block_order;
pub mod gf256;
pub mod hecc_core;
pub mod hecc_pipeline;
pub mod interpolation;
pub mod pipeline_laws;
pub mod poly;

pub use crate::gf256::Gf256;
pub use crate::hecc_core::{hecc_decode, hecc_encode, HeccError, HeccParams};
pub use crate::hecc_pipeline::{
    hecc_frame_blocks, hecc_recover_bytes, hecc_shred_block, hecc_shred_bytes, HeccPipelineError,
    HeccShard,
};
