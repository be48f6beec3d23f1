//! Perception and short-term memory for the actors of a simulation.
//!
//! Stimuli are stored as [`MemoryEntry`] values inside the [`Memory`] of an
//! actor. The parameter `P` is the host's percept type, such as sound or pain.
//! Each memory decays over time and goes once it is down to a threshold.
//!
//! There are two ways for a stimulus to reach an actor:
//!
//! - [`PerceptionMessage`] is a broadcast: it spreads to every actor within
//!   range, attenuated by distance, see [`propagate_perception`].
//! - [`PerceptionEvent`] is for one actor alone and is not attenuated, see
//!   [`on_perception_event`].
//!
//! Both may name the entity that caused the stimulus. An actor does not perceive
//! broadcasts that it caused.
//!
//! [`MemoryDigest`] summarizes the memories of an actor percept by percept.
//!
//! Numbers are held as bit patterns ([`Scalar`]); the host lends the arithmetic
//! on them ([`Arithmetic`]). Contracts say which operations a result comes from,
//! in what order and on what numbers. The modules whose names end in `_laws`
//! state what holds of the library as a whole.

pub mod arithmetic;
pub mod call_laws;
pub mod config;
pub mod conservative_laws;
pub mod digest;
pub mod digest_laws;
pub mod digest_map;
pub mod direction_laws;
pub mod exact;
pub mod extent;
pub mod extent_laws;
pub mod folding_laws;
pub mod frame_laws;
pub mod hearing_laws;
pub mod index;
pub mod index_laws;
pub mod listing_laws;
pub mod memory;
pub mod memory_laws;
pub mod merge;
pub mod merge_laws;
pub mod message;
pub mod padding_laws;
pub mod percept;
pub mod prelude;
pub mod propagation;
pub mod propagation_laws;
pub mod rounding;
pub mod scalar;
pub mod scalar_laws;
pub mod space;
pub mod succession_laws;
pub mod systems;
pub mod systems_laws;

pub use arithmetic::Arithmetic;
pub use config::PerceptionConfig;
pub use digest::{update_memory_digest, MemoryDigest};
pub use digest_map::{DigestMap, PerceptDigest};
pub use memory::{LocationKnowledge, Memory, MemoryEntry};
pub use message::{PerceptionEvent, PerceptionMessage};
pub use percept::{Entity, Percept};
pub use propagation::{propagate_perception, Perceiver, PropagationScratch};
pub use scalar::Scalar;
pub use space::{Cell, Dir2, Vec2};
pub use systems::{decay_memories, on_perception_event};
