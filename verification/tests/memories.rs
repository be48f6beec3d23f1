use msg_perception::{
    decay_memories, on_perception_event, Arithmetic, Dir2, Entity, LocationKnowledge, Memory,
    MemoryEntry, Percept, PerceptionConfig, PerceptionEvent, Scalar, Vec2,
};

#[derive(Debug, Clone, Copy, PartialEq, Eq, Hash)]
enum TestPercept {
    Sound,
    Pain,
}

impl Percept for TestPercept {
    fn reflect_partial_eq(&self, other: &TestPercept) -> Option<bool> {
        Some(self == other)
    }

    fn duplicate(&self) -> TestPercept {
        *self
    }
}

/// The arithmetic of the machine.
struct Machine;

fn number(value: f32) -> Scalar {
    Scalar::from_bits(value.to_bits())
}

fn float(number: Scalar) -> f32 {
    f32::from_bits(number.to_bits())
}

impl Arithmetic for Machine {
    fn plus(a: Scalar, b: Scalar) -> Scalar {
        number(float(a) + float(b))
    }

    fn minus(a: Scalar, b: Scalar) -> Scalar {
        number(float(a) - float(b))
    }

    fn times(a: Scalar, b: Scalar) -> Scalar {
        number(float(a) * float(b))
    }

    fn over(a: Scalar, b: Scalar) -> Scalar {
        number(float(a) / float(b))
    }

    fn square_root(a: Scalar) -> Scalar {
        number(float(a).sqrt())
    }

    fn log10(a: Scalar) -> Scalar {
        number(float(a).log10())
    }

    fn floor(a: Scalar) -> Scalar {
        number(float(a).floor())
    }

    fn to_int(a: Scalar) -> i32 {
        float(a) as i32
    }
}

fn point(x: f32, y: f32) -> Vec2 {
    Vec2 { x: number(x), y: number(y) }
}

fn make_entry(percept: TestPercept, value: f32) -> MemoryEntry<TestPercept> {
    MemoryEntry { percept, value: number(value), location: None, source: None }
}

fn values(memory: &Memory<TestPercept>) -> Vec<f32> {
    memory.iter().map(|entry| float(entry.value)).collect()
}

#[test]
fn push_and_sum() {
    let mut memory = Memory::<TestPercept>::default();
    memory.push(make_entry(TestPercept::Sound, 10.0), 16);
    memory.push(make_entry(TestPercept::Sound, 5.0), 16);
    assert_eq!(memory.len(), 2);
    assert!((float(memory.sum::<Machine>()) - 15.0).abs() < f32::EPSILON);
}

#[test]
fn push_evicts_oldest_at_capacity() {
    let mut memory = Memory::<TestPercept>::default();
    memory.push(make_entry(TestPercept::Sound, 1.0), 2);
    memory.push(make_entry(TestPercept::Sound, 2.0), 2);
    memory.push(make_entry(TestPercept::Sound, 3.0), 2);
    assert_eq!(memory.len(), 2);
    assert!((float(memory.sum::<Machine>()) - 5.0).abs() < f32::EPSILON);
}

#[test]
fn decay_removes_below_threshold() {
    let mut memory = Memory::<TestPercept>::default();
    memory.push(make_entry(TestPercept::Sound, 5.0), 16);
    memory.push(make_entry(TestPercept::Sound, 1.0), 16);
    memory.decay::<Machine>(number(2.0), number(1.0));
    assert_eq!(memory.len(), 1);
    assert!((float(memory.sum::<Machine>()) - 3.0).abs() < f32::EPSILON);
}

#[test]
fn strongest_returns_highest() {
    let mut memory = Memory::<TestPercept>::default();
    memory.push(make_entry(TestPercept::Sound, 3.0), 16);
    memory.push(make_entry(TestPercept::Sound, 7.0), 16);
    memory.push(make_entry(TestPercept::Sound, 5.0), 16);
    let strongest = memory.strongest().unwrap();
    assert!((float(strongest.value) - 7.0).abs() < f32::EPSILON);
}

#[test]
fn location_knowledge_origin_direction() {
    let loc = LocationKnowledge::Origin(point(10.0, 0.0));
    let dir = loc.direction_from::<Machine>(point(0.0, 0.0)).unwrap();
    assert!((float(dir.x) - 1.0).abs() < f32::EPSILON);
    assert!(float(dir.y).abs() < f32::EPSILON);
    assert_eq!(loc.origin(), Some(point(10.0, 0.0)));
}

#[test]
fn location_knowledge_direction_only() {
    let loc = LocationKnowledge::Direction(Dir2 { x: number(0.0), y: number(1.0) });
    let dir = loc.direction_from::<Machine>(point(0.0, 0.0)).unwrap();
    assert!((float(dir.y) - 1.0).abs() < f32::EPSILON);
    assert_eq!(loc.origin(), None);
}

#[test]
fn perception_event_inserts_memory_on_target() {
    let config = PerceptionConfig::default();
    let mut memories = vec![Memory::<TestPercept>::default()];
    let origin = point(50.0, 0.0);
    let event = PerceptionEvent {
        entity: Entity { bits: 1 },
        percept: TestPercept::Pain,
        value: number(15.0),
        location: Some(LocationKnowledge::Origin(origin)),
        source: None,
    };
    assert!(on_perception_event(&event, Some(&mut memories[0]), &config));
    // The value is slightly reduced by decay in the same frame.
    decay_memories::<Machine, TestPercept>(number(0.016), &mut memories, &config);

    let memory = &memories[0];
    assert_eq!(memory.len(), 1);
    let entry = memory.strongest().unwrap();
    assert_eq!(entry.percept, TestPercept::Pain);
    assert!((float(entry.value) - 15.0).abs() < 1.0);
    assert_eq!(entry.location, Some(LocationKnowledge::Origin(origin)));
}

#[test]
fn perception_event_ignored_without_memory() {
    let event = PerceptionEvent {
        entity: Entity { bits: 1 },
        percept: TestPercept::Pain,
        value: number(10.0),
        location: None,
        source: None,
    };
    assert!(!on_perception_event(&event, None, &PerceptionConfig::default()));
}

#[test]
fn decay_removes_weak_memories() {
    let mut memory = Memory::<TestPercept>::default();
    memory.push(make_entry(TestPercept::Pain, 2.0), 16);
    memory.decay::<Machine>(number(5.0), number(0.5));
    assert!(memory.is_empty());
}

#[test]
fn source_entity_preserved_in_memory() {
    let config = PerceptionConfig::default();
    let attacker = Entity { bits: 2 };
    let mut memory = Memory::<TestPercept>::default();
    let event = PerceptionEvent {
        entity: Entity { bits: 1 },
        percept: TestPercept::Pain,
        value: number(10.0),
        location: None,
        source: Some(attacker),
    };
    on_perception_event(&event, Some(&mut memory), &config);
    let entry = memory.strongest().unwrap();
    assert_eq!(entry.source, Some(attacker));
}

#[test]
fn default_configuration() {
    let config = PerceptionConfig::default();
    assert_eq!(float(config.decay_rate), 5.0);
    assert_eq!(float(config.min_threshold), 0.5);
    assert_eq!(config.max_count, 16);
    assert_eq!(config.merge_radius.to_bits(), 0.0f32.to_bits());
}

#[test]
fn new_memory_is_empty() {
    let memory = Memory::<TestPercept>::default();
    assert!(memory.is_empty());
    assert_eq!(memory.len(), 0);
    assert!(memory.strongest().is_none());
    assert_eq!(memory.sum::<Machine>().to_bits(), (-0.0f32).to_bits());
}

#[test]
fn memories_are_newest_first() {
    let mut memory = Memory::<TestPercept>::default();
    for value in [1.0, 2.0, 3.0, 4.0] {
        memory.push(make_entry(TestPercept::Sound, value), 3);
    }
    assert_eq!(values(&memory), vec![4.0, 3.0, 2.0]);
}

#[test]
fn no_limit_at_zero_capacity() {
    let mut memory = Memory::<TestPercept>::default();
    for value in 0..40 {
        memory.push(make_entry(TestPercept::Sound, value as f32), 0);
    }
    assert_eq!(memory.len(), 40);
}

#[test]
fn lowering_the_limit_drops_one_memory_per_push() {
    let mut memory = Memory::<TestPercept>::default();
    for value in [1.0, 2.0, 3.0, 4.0] {
        memory.push(make_entry(TestPercept::Sound, value), 16);
    }
    memory.push(make_entry(TestPercept::Sound, 5.0), 2);
    assert_eq!(values(&memory), vec![5.0, 4.0, 3.0, 2.0]);
}

#[test]
fn strongest_of_equals_is_the_oldest() {
    let mut memory = Memory::<TestPercept>::default();
    memory.push(make_entry(TestPercept::Pain, 7.0), 16);
    memory.push(make_entry(TestPercept::Sound, 7.0), 16);
    memory.push(make_entry(TestPercept::Sound, 6.0), 16);
    assert_eq!(memory.strongest().unwrap().percept, TestPercept::Pain);
}

#[test]
fn decay_keeps_the_order_of_survivors() {
    let mut memory = Memory::<TestPercept>::default();
    for value in [8.0, 2.0, 6.0, 1.0, 4.0] {
        memory.push(make_entry(TestPercept::Sound, value), 16);
    }
    memory.decay::<Machine>(number(1.5), number(0.5));
    assert_eq!(values(&memory), vec![2.5, 4.5, 6.5]);
}

#[test]
fn decay_to_the_threshold_removes() {
    let mut memory = Memory::<TestPercept>::default();
    memory.push(make_entry(TestPercept::Sound, 2.5), 16);
    memory.decay::<Machine>(number(2.0), number(0.5));
    assert!(memory.is_empty());
}

#[test]
fn decay_by_rate_and_time() {
    let config = PerceptionConfig::default();
    let mut loud = Memory::<TestPercept>::default();
    loud.push(make_entry(TestPercept::Sound, 10.0), 16);
    let mut faint = Memory::<TestPercept>::default();
    faint.push(make_entry(TestPercept::Sound, 10.5), 16);
    faint.push(make_entry(TestPercept::Sound, 3.0), 16);
    let mut memories = vec![loud, faint];
    decay_memories::<Machine, TestPercept>(number(0.5), &mut memories, &config);
    assert_eq!(values(&memories[0]), vec![7.5]);
    assert_eq!(values(&memories[1]), vec![8.0]);
}

#[test]
fn event_at_the_threshold_is_not_stored() {
    let config = PerceptionConfig::default();
    let mut memory = Memory::<TestPercept>::default();
    let mut event = PerceptionEvent {
        entity: Entity { bits: 1 },
        percept: TestPercept::Pain,
        value: number(0.5),
        location: None,
        source: None,
    };
    assert!(!on_perception_event(&event, Some(&mut memory), &config));
    assert!(memory.is_empty());
    event.value = number(0.75);
    assert!(on_perception_event(&event, Some(&mut memory), &config));
    assert_eq!(values(&memory), vec![0.75]);
}

#[test]
fn events_keep_within_the_limit() {
    let config = PerceptionConfig { max_count: 2, ..PerceptionConfig::default() };
    let mut memory = Memory::<TestPercept>::default();
    for value in [1.0, 2.0, 3.0] {
        let event = PerceptionEvent {
            entity: Entity { bits: 1 },
            percept: TestPercept::Pain,
            value: number(value),
            location: None,
            source: None,
        };
        on_perception_event(&event, Some(&mut memory), &config);
    }
    assert_eq!(values(&memory), vec![3.0, 2.0]);
}

#[test]
fn no_direction_from_the_origin_itself() {
    let loc = LocationKnowledge::Origin(point(3.0, 4.0));
    assert!(loc.direction_from::<Machine>(point(3.0, 4.0)).is_none());
    let dir = loc.direction_from::<Machine>(point(0.0, 0.0)).unwrap();
    assert_eq!((float(dir.x), float(dir.y)), (0.6, 0.8));
}

#[test]
fn no_direction_from_infinitely_far() {
    let loc = LocationKnowledge::Origin(point(f32::INFINITY, 0.0));
    assert!(loc.direction_from::<Machine>(point(0.0, 0.0)).is_none());
    let loc = LocationKnowledge::Origin(point(f32::NAN, 0.0));
    assert!(loc.direction_from::<Machine>(point(0.0, 0.0)).is_none());
}

#[test]
fn numbers_compare_as_machine_numbers_do() {
    let samples = [
        0.0,
        -0.0,
        1.0,
        -1.0,
        0.5,
        f32::MIN_POSITIVE,
        f32::from_bits(1),
        -f32::from_bits(1),
        f32::MAX,
        f32::MIN,
        f32::INFINITY,
        f32::NEG_INFINITY,
        f32::NAN,
        -f32::NAN,
    ];
    for a in samples {
        assert_eq!(number(a).is_nan(), a.is_nan());
        assert_eq!(number(a).is_finite(), a.is_finite());
        assert_eq!(
            Scalar::from_total_key(number(a).total_key()).to_bits(),
            a.to_bits()
        );
        for b in samples {
            assert_eq!(number(a) == number(b), a == b);
            assert_eq!(number(a).partial_cmp(&number(b)), a.partial_cmp(&b));
            assert_eq!(
                number(a).total_key().cmp(&number(b).total_key()),
                a.total_cmp(&b)
            );
            if !a.is_nan() || !b.is_nan() {
                assert!(float(number(a).max(number(b))) == a.max(b));
            }
        }
    }
}
