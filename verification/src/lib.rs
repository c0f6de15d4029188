//! A bridge between hosts that pass 64-bit samples and audio plugins that process 32-bit samples.
//!
//! The host samples are quantized once for the plugin, and what quantizing drops is delayed by
//! the latency of the plugin and added to its output: see `adapter` for the bridge and `laws` for
//! what holds of it.

pub mod adapter;
pub mod block_laws;
pub mod carrier;
pub mod class_id;
pub mod host;
pub mod ieee;
pub mod laws;
pub mod layout;
pub mod part_laws;
pub mod plugin;
pub mod residual;
pub mod rounding;
pub mod sample;
pub mod sample_laws;
pub mod scratch;
