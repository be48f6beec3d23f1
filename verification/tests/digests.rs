use msg_perception::{
    update_memory_digest, Arithmetic, DigestMap, Dir2, Entity, LocationKnowledge, Memory,
    MemoryDigest, MemoryEntry, Percept, PerceptDigest, Scalar, Vec2,
};

#[derive(Debug, Clone, Copy, PartialEq, Eq, Hash)]
enum TestPercept {
    Sound,
    Pain,
}

impl Percept for TestPercept {
    fn reflect_partial_eq(&self, other: &TestPercept) -> Option<bool> {
        Some(self == other)
    }

    fn duplicate(&self) -> TestPercept {
        *self
    }
}

#[derive(Debug, Clone, PartialEq, Eq, Hash)]
struct Named(String);

impl Percept for Named {
    fn reflect_partial_eq(&self, other: &Named) -> Option<bool> {
        Some(self == other)
    }

    fn duplicate(&self) -> Named {
        self.clone()
    }
}

/// The arithmetic of the machine.
struct Machine;

fn number(value: f32) -> Scalar {
    Scalar::from_bits(value.to_bits())
}

fn float(number: Scalar) -> f32 {
    f32::from_bits(number.to_bits())
}

impl Arithmetic for Machine {
    fn plus(a: Scalar, b: Scalar) -> Scalar {
        number(float(a) + float(b))
    }

    fn minus(a: Scalar, b: Scalar) -> Scalar {
        number(float(a) - float(b))
    }

    fn times(a: Scalar, b: Scalar) -> Scalar {
        number(float(a) * float(b))
    }

    fn over(a: Scalar, b: Scalar) -> Scalar {
        number(float(a) / float(b))
    }

    fn square_root(a: Scalar) -> Scalar {
        number(float(a).sqrt())
    }

    fn log10(a: Scalar) -> Scalar {
        number(float(a).log10())
    }

    fn floor(a: Scalar) -> Scalar {
        number(float(a).floor())
    }

    fn to_int(a: Scalar) -> i32 {
        float(a) as i32
    }
}

fn point(x: f32, y: f32) -> Vec2 {
    Vec2 { x: number(x), y: number(y) }
}

fn entry<P>(
    percept: P,
    value: f32,
    location: Option<LocationKnowledge>,
    source: Option<Entity>,
) -> MemoryEntry<P> {
    MemoryEntry { percept, value: number(value), location, source }
}

/// Brings one actor's summaries up to date and says whether they were written.
fn update<P: Percept + Eq + std::hash::Hash>(
    actors: &mut Vec<(MemoryDigest<P>, Memory<P>)>,
) -> Vec<bool> {
    update_memory_digest::<Machine, P>(actors, &mut DigestMap::default())
}

#[test]
fn digest_groups_by_percept_type() {
    let attacker = Entity { bits: 5 };

    let mut memory = Memory::default();
    memory.push(
        entry(
            TestPercept::Sound,
            10.0,
            Some(LocationKnowledge::Origin(point(5.0, 0.0))),
            None,
        ),
        16,
    );
    memory.push(entry(TestPercept::Sound, 3.0, None, None), 16);
    memory.push(
        entry(
            TestPercept::Pain,
            7.0,
            Some(LocationKnowledge::Direction(Dir2 { x: number(1.0), y: number(0.0) })),
            Some(attacker),
        ),
        16,
    );

    let mut actors = vec![(MemoryDigest::default(), memory)];
    update(&mut actors);
    let digest = &actors[0].0;

    let sound = digest.get(&TestPercept::Sound).unwrap();
    assert!((float(sound.strongest_value) - 10.0).abs() < f32::EPSILON);
    assert!((float(sound.total_value) - 13.0).abs() < f32::EPSILON);
    assert_eq!(
        sound.strongest_location,
        Some(LocationKnowledge::Origin(point(5.0, 0.0)))
    );
    assert!(sound.strongest_source.is_none());

    let pain = digest.get(&TestPercept::Pain).unwrap();
    assert!((float(pain.strongest_value) - 7.0).abs() < f32::EPSILON);
    assert!((float(pain.total_value) - 7.0).abs() < f32::EPSILON);
    assert_eq!(pain.strongest_source, Some(attacker));
}

#[test]
fn digest_empty_with_no_memories() {
    let mut actors = vec![(
        MemoryDigest::<TestPercept>::default(),
        Memory::<TestPercept>::default(),
    )];
    update(&mut actors);

    let digest = &actors[0].0;
    assert!(digest.digests.is_empty());
    assert!(digest.strongest_value().is_none());
    assert!(float(digest.total_value::<Machine>()).abs() < f32::EPSILON);
}

#[test]
fn digest_updates_when_memories_change() {
    let mut actors = vec![(
        MemoryDigest::<TestPercept>::default(),
        Memory::<TestPercept>::default(),
    )];
    update(&mut actors);

    // Add a memory after the initial update.
    actors[0].1.push(entry(TestPercept::Pain, 5.0, None, None), 16);
    update(&mut actors);

    let pain = actors[0].0.get(&TestPercept::Pain).unwrap();
    assert!((float(pain.strongest_value) - 5.0).abs() < f32::EPSILON);
}

#[test]
fn digest_all_negative_values_tracks_real_entry() {
    let attacker = Entity { bits: 5 };

    let mut memory = Memory::default();
    memory.push(entry(TestPercept::Pain, -3.0, None, None), 16);
    memory.push(
        entry(
            TestPercept::Pain,
            -1.0,
            Some(LocationKnowledge::Origin(point(2.0, 0.0))),
            Some(attacker),
        ),
        16,
    );

    let digests = memory.digest::<Machine>();
    let pain = digests.get(&TestPercept::Pain).unwrap();
    assert!((float(pain.strongest_value) - -1.0).abs() < f32::EPSILON);
    assert_eq!(
        pain.strongest_location,
        Some(LocationKnowledge::Origin(point(2.0, 0.0)))
    );
    assert_eq!(pain.strongest_source, Some(attacker));
    assert!((float(pain.total_value) - -4.0).abs() < f32::EPSILON);

    let digest = MemoryDigest { digests };
    assert_eq!(digest.strongest_value(), Some(number(-1.0)));
}

#[test]
fn digest_works_with_non_copy_percepts() {
    let mut memory = Memory::default();
    memory.push(entry(Named("footsteps".to_string()), 4.0, None, None), 16);

    let digests = memory.digest::<Machine>();
    let footsteps = digests.get(&Named("footsteps".to_string())).unwrap();
    assert!((float(footsteps.strongest_value) - 4.0).abs() < f32::EPSILON);
}

#[test]
fn digest_cleared_when_memory_becomes_empty() {
    let mut memory = Memory::default();
    memory.push(entry(TestPercept::Sound, 5.0, None, None), 16);

    let mut actors = vec![(MemoryDigest::<TestPercept>::default(), memory)];
    update(&mut actors);
    assert!(!actors[0].0.digests.is_empty());

    actors[0].1.decay::<Machine>(number(10.0), number(0.5));
    update(&mut actors);
    assert!(actors[0].0.digests.is_empty());
}

#[test]
fn digest_not_dirtied_when_memory_static() {
    let mut memory = Memory::default();
    memory.push(entry(TestPercept::Sound, 5.0, None, None), 16);
    let mut actors = vec![(MemoryDigest::<TestPercept>::default(), memory)];

    // The memory never changes after the first update, so the digest must not
    // be rewritten on later updates.
    let mut changes = 0;
    for _ in 0..3 {
        changes += update(&mut actors).into_iter().filter(|&written| written).count();
    }
    assert_eq!(changes, 1);
}

#[test]
fn digest_of_one_percept() {
    let mut memory = Memory::default();
    memory.push(entry(TestPercept::Sound, 10.0, None, None), 16);
    memory.push(entry(TestPercept::Sound, 3.0, None, None), 16);

    let digests = memory.digest::<Machine>();
    let sound = digests.get(&TestPercept::Sound).unwrap();
    assert_eq!(sound.strongest_value, number(10.0));
    assert_eq!(sound.total_value, number(13.0));
    assert!(digests.get(&TestPercept::Pain).is_none());
}

#[test]
fn digest_describes_the_oldest_of_equals_as_strongest_does() {
    let mut memory = Memory::default();
    memory.push(entry(TestPercept::Sound, 4.0, None, Some(Entity { bits: 1 })), 16);
    memory.push(entry(TestPercept::Sound, 4.0, None, Some(Entity { bits: 2 })), 16);
    let digests = memory.digest::<Machine>();
    let sound = digests.get(&TestPercept::Sound).unwrap();
    assert_eq!(sound.strongest_source, Some(Entity { bits: 1 }));
    assert_eq!(sound.strongest_source, memory.strongest().unwrap().source);
}

#[test]
fn refilling_leaves_nothing_behind() {
    let mut sounds = Memory::default();
    sounds.push(entry(TestPercept::Sound, 4.0, None, None), 16);
    let mut pains = Memory::default();
    pains.push(entry(TestPercept::Pain, 6.0, None, None), 16);

    let mut digests = sounds.digest::<Machine>();
    pains.digest_into::<Machine>(&mut digests);
    assert!(digests.get(&TestPercept::Sound).is_none());
    assert_eq!(digests.get(&TestPercept::Pain).unwrap().total_value, number(6.0));
}

#[test]
fn totals_and_strongest_across_percepts() {
    let mut memory = Memory::default();
    memory.push(entry(TestPercept::Sound, 4.0, None, None), 16);
    memory.push(entry(TestPercept::Pain, 6.0, None, None), 16);
    memory.push(entry(TestPercept::Sound, 1.0, None, None), 16);
    let digest = MemoryDigest { digests: memory.digest::<Machine>() };
    assert_eq!(digest.strongest_value(), Some(number(6.0)));
    assert_eq!(digest.strongest_value(), memory.strongest().map(|entry| entry.value));
    assert_eq!(digest.total_value::<Machine>(), number(11.0));
}

#[test]
fn summaries_are_written_where_they_differ() {
    let mut memory = Memory::default();
    memory.push(entry(TestPercept::Sound, 4.0, None, None), 16);
    let mut actors = vec![
        (MemoryDigest::default(), Memory::default()),
        (MemoryDigest::default(), memory),
    ];
    assert_eq!(update(&mut actors), vec![false, true]);
    assert_eq!(update(&mut actors), vec![false, false]);
    // One more memory of the same strength changes the total alone.
    actors[1].1.push(entry(TestPercept::Sound, 4.0, None, None), 16);
    actors[0].1.push(entry(TestPercept::Pain, 1.0, None, None), 16);
    assert_eq!(update(&mut actors), vec![true, true]);
    let sound = actors[1].0.get(&TestPercept::Sound).unwrap();
    assert_eq!(sound.total_value, number(8.0));
    assert_eq!(update(&mut actors), vec![false, false]);
}

#[test]
fn empty_summary() {
    let digest = PerceptDigest::default();
    assert_eq!(digest.strongest_value, number(0.0));
    assert_eq!(digest.total_value, number(0.0));
    assert!(digest.strongest_location.is_none());
    assert!(digest.strongest_source.is_none());
    assert!(digest == PerceptDigest::default());
    assert!(digest != PerceptDigest { total_value: number(1.0), ..digest });
    assert!(digest != PerceptDigest { strongest_source: Some(Entity { bits: 0 }), ..digest });
}

#[test]
fn total_of_the_summaries_is_the_sum_of_the_memories() {
    let mut memory = Memory::default();
    for (step, value) in [4.0, 0.5, -3.25, 16.0, 7.75, -20.0].into_iter().enumerate() {
        let percept = if step % 2 == 0 { TestPercept::Sound } else { TestPercept::Pain };
        memory.push(entry(percept, value, None, None), 16);
    }
    let digest = MemoryDigest { digests: memory.digest::<Machine>() };
    assert_eq!(digest.total_value::<Machine>(), memory.sum::<Machine>());
    assert_eq!(digest.total_value::<Machine>(), number(5.0));
}
