//! Stimuli on their way to the actors.

use crate::memory::LocationKnowledge;
use crate::percept::{Entity, Percept};
use crate::scalar::Scalar;
use crate::space::Vec2;
use vstd::prelude::*;

verus! {

/// A stimulus that spreads through space to every actor within range.
#[derive(Clone, Debug)]
pub struct PerceptionMessage<P> {
    /// The perceived stimulus.
    pub percept: P,
    /// Intensity before distance attenuation.
    pub base_value: Scalar,
    /// Where the stimulus originated.
    pub origin: Vec2,
    /// Maximum propagation radius.
    pub range: Scalar,
    /// The entity that caused the stimulus, if known; it does not perceive it.
    pub source: Option<Entity>,
}

impl<P> PerceptionMessage<P> {
    /// The message at another base intensity.
    pub open spec fn at_base(self, base_value: Scalar) -> PerceptionMessage<P> {
        PerceptionMessage { base_value, ..self }
    }
}

impl<P: Percept> PerceptionMessage<P> {
    /// A copy of the message.
    pub fn duplicate(&self) -> (copy: PerceptionMessage<P>)
        ensures
            copy == *self,
    {
        PerceptionMessage {
            percept: self.percept.duplicate(),
            base_value: self.base_value,
            origin: self.origin,
            range: self.range,
            source: self.source,
        }
    }
}

/// A stimulus for one actor alone, at full intensity.
#[derive(Clone, Debug)]
pub struct PerceptionEvent<P> {
    /// The entity that receives the perception.
    pub entity: Entity,
    /// The perceived stimulus.
    pub percept: P,
    /// Intensity of the stimulus, stored as it is.
    pub value: Scalar,
    /// Spatial knowledge about the stimulus source.
    pub location: Option<LocationKnowledge>,
    /// The entity that caused the stimulus, if known.
    pub source: Option<Entity>,
}

} // verus!
