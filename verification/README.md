# msg_perception

Perception and short-term memory for the actors of a simulation.

Stimuli are stored as `MemoryEntry<P>` values inside the `Memory<P>` of an
actor. The parameter `P` is the percept type, such as sound or pain. Each entry
decays over time and is removed once it is down to a threshold.

- Broadcast stimuli, `PerceptionMessage<P>`: spatial propagation with
  logarithmic attenuation, `V = V_base - 20 log10(distance)`.
- Targeted stimuli, `PerceptionEvent<P>`: for one actor, not attenuated.
- An actor does not perceive broadcasts that it caused.
- Broadcasts of one frame that share a percept, a source, a range and an origin
  cell are merged into one.
- `MemoryDigest<P>` summarizes the memories of an actor percept by percept.

## Layout

`src/` is the library, verified with Verus. `scalar` holds numbers as bit
patterns and orders them; `arithmetic` is the trait through which the host lends
the operations on them. `memory`, `message`, `config`, `percept` and `space` are
the data; `systems` handles events and decay; `merge`, `extent`, `index` and
`propagation` handle broadcasts; `digest` and `digest_map` the summaries. The
modules whose names end in `_laws` state what holds of these as a whole; `exact`
and `rounding` say what arithmetic owes where such a law depends on it.

`app/` makes Bevy components, messages, events, systems and plugins of it, with
the arithmetic of the machine.

`tests/` runs the library with the arithmetic of the machine.
