//! What a host needs most.

pub use crate::{
    Arithmetic, Entity, LocationKnowledge, Memory, MemoryEntry, Percept, PerceptionConfig,
    PerceptionEvent, PerceptionMessage, Scalar, Vec2,
};
