//! The buses that a plugin declares.

use vstd::prelude::*;
use crate::sample;
use crate::sample::{ceil_to_usize, is_finite64, product, widen, SIGN64};

verus! {

/// How many channels each bus of a plugin has. A main bus that is absent, or has no channels, is
/// not processed.
#[derive(Clone, Copy)]
pub struct AudioIOLayout {
    pub main_input_channels: Option<u32>,
    pub main_output_channels: Option<u32>,
    pub aux_input_ports: &'static [u32],
    pub aux_output_ports: &'static [u32],
}

impl AudioIOLayout {
    /// A layout without buses.
    pub fn const_default() -> (r: Self)
        ensures
            r.main_input_channels is None,
            r.main_output_channels is None,
            r.aux_input_ports@.len() == 0,
            r.aux_output_ports@.len() == 0,
    {
        AudioIOLayout {
            main_input_channels: None,
            main_output_channels: None,
            aux_input_ports: &[],
            aux_output_ports: &[],
        }
    }
}

/// The channels of an optional bus.
pub open spec fn channels_of(channels: Option<u32>) -> nat {
    match channels {
        Some(channels) => channels as nat,
        None => 0,
    }
}

/// The channels of an optional bus.
pub fn channel_count(channels: Option<u32>) -> (r: usize)
    ensures
        r == channels_of(channels),
{
    match channels {
        Some(channels) => channels as usize,
        None => 0,
    }
}

/// The longest latency to cover, in seconds: none where the declared one is negative or not a
/// finite number.
pub open spec fn bounded(max_latency_seconds: u64) -> u64 {
    if sample::finite64(max_latency_seconds) && sample::value64(max_latency_seconds) >= 0 {
        max_latency_seconds
    } else {
        0
    }
}

/// How many residuals a delay holds that covers `max_latency_seconds` at `sample_rate`: one for
/// each sample of that time, rounded up, and one for the current sample.
pub open spec fn capacity_for(sample_rate: u32, max_latency_seconds: u64) -> nat {
    let samples = sample::ceiling(
        sample::scaled(sample::widened(sample_rate), bounded(max_latency_seconds)),
    );
    if samples < usize::MAX {
        samples + 1
    } else {
        usize::MAX as nat
    }
}

/// How many residuals a delay holds that covers `max_latency_seconds` at `sample_rate`.
pub fn residual_capacity(sample_rate: u32, max_latency_seconds: u64) -> (r: usize)
    ensures
        r == capacity_for(sample_rate, max_latency_seconds),
{
    let bounded_seconds: u64 = if is_finite64(max_latency_seconds) && (max_latency_seconds
        <= SIGN64) {
        max_latency_seconds
    } else {
        0
    };
    proof {
        if sample::finite64(max_latency_seconds) {
            sample::lemma_sign(max_latency_seconds);
        }
    }
    let samples = ceil_to_usize(product(widen(sample_rate), bounded_seconds));
    if samples == usize::MAX {
        samples
    } else {
        samples + 1
    }
}

} // verus!
