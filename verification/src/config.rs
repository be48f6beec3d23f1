//! How fast memories fade, how many an actor keeps, and how stimuli merge.

use crate::scalar::Scalar;
use vstd::prelude::*;

verus! {

/// Bit pattern of `5.0`.
const FIVE_BITS: u32 = 0x40a0_0000;

/// Bit pattern of `0.5`.
const HALF_BITS: u32 = 0x3f00_0000;

/// Bit pattern of `0.0`.
const NO_RADIUS_BITS: u32 = 0;

/// Controls memory decay, memory capacity and the merging of stimuli.
#[derive(Clone, Copy, Debug)]
pub struct PerceptionConfig {
    /// How fast memory values decay per second.
    pub decay_rate: Scalar,
    /// Entries with a value at or below this threshold are removed.
    pub min_threshold: Scalar,
    /// The most memories an actor keeps; zero sets no limit.
    pub max_count: usize,
    /// Edge of the grid cells by which the origins of one frame's messages are
    /// taken as one. Zero merges origins of one bit pattern only; a negative
    /// number turns merging off.
    pub merge_radius: Scalar,
}

impl Default for PerceptionConfig {
    fn default() -> (config: PerceptionConfig)
        ensures
            config.decay_rate.bits == 0x40a0_0000u32,
            config.min_threshold.bits == 0x3f00_0000u32,
            config.max_count == 16,
            config.merge_radius.bits == 0,
    {
        PerceptionConfig {
            decay_rate: Scalar::from_bits(FIVE_BITS),
            min_threshold: Scalar::from_bits(HALF_BITS),
            max_count: 16,
            merge_radius: Scalar::from_bits(NO_RADIUS_BITS),
        }
    }
}

} // verus!
