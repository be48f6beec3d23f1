use msg_perception::extent::ends;
use msg_perception::index::{cell_key, reach_of, MessageIndex, Reach};
use msg_perception::merge::{merge_batch, origin_key, MergeKey};
use msg_perception::propagation::{attenuation, heard, remember, worth_indexing};
use msg_perception::{
    propagate_perception, Arithmetic, Cell, Entity, LocationKnowledge, Memory, MemoryEntry, Percept,
    Perceiver, PerceptionConfig, PerceptionMessage, PropagationScratch, Scalar, Vec2,
};

#[derive(Debug, Clone, Copy, PartialEq, Eq, Hash)]
enum TestPercept {
    Sound,
    Pain,
    Murmur,
}

impl Percept for TestPercept {
    fn reflect_partial_eq(&self, other: &TestPercept) -> Option<bool> {
        // Murmurs cannot be told apart.
        if *self == TestPercept::Murmur || *other == TestPercept::Murmur {
            None
        } else {
            Some(self == other)
        }
    }

    fn duplicate(&self) -> TestPercept {
        *self
    }
}

/// The arithmetic of the machine.
struct Machine;

fn number(value: f32) -> Scalar {
    Scalar::from_bits(value.to_bits())
}

fn float(number: Scalar) -> f32 {
    f32::from_bits(number.to_bits())
}

impl Arithmetic for Machine {
    fn plus(a: Scalar, b: Scalar) -> Scalar {
        number(float(a) + float(b))
    }

    fn minus(a: Scalar, b: Scalar) -> Scalar {
        number(float(a) - float(b))
    }

    fn times(a: Scalar, b: Scalar) -> Scalar {
        number(float(a) * float(b))
    }

    fn over(a: Scalar, b: Scalar) -> Scalar {
        number(float(a) / float(b))
    }

    fn square_root(a: Scalar) -> Scalar {
        number(float(a).sqrt())
    }

    fn log10(a: Scalar) -> Scalar {
        number(float(a).log10())
    }

    fn floor(a: Scalar) -> Scalar {
        number(float(a).floor())
    }

    fn to_int(a: Scalar) -> i32 {
        float(a) as i32
    }
}

fn point(x: f32, y: f32) -> Vec2 {
    Vec2 { x: number(x), y: number(y) }
}

fn entity(bits: u64) -> Entity {
    Entity { bits }
}

fn message(
    percept: TestPercept,
    base_value: f32,
    origin: Vec2,
    source: Option<Entity>,
) -> PerceptionMessage<TestPercept> {
    ranged(percept, base_value, origin, 100.0, source)
}

fn ranged(
    percept: TestPercept,
    base_value: f32,
    origin: Vec2,
    range: f32,
    source: Option<Entity>,
) -> PerceptionMessage<TestPercept> {
    PerceptionMessage {
        percept,
        base_value: number(base_value),
        origin,
        range: number(range),
        source,
    }
}

fn merge(
    mut batch: Vec<PerceptionMessage<TestPercept>>,
    merge_radius: f32,
) -> Vec<PerceptionMessage<TestPercept>> {
    let mut keys: Vec<MergeKey> = Vec::new();
    let mut merged = Vec::new();
    merge_batch::<Machine, TestPercept>(&mut batch, &mut keys, &mut merged, number(merge_radius));
    batch
}

fn bases(batch: &[PerceptionMessage<TestPercept>]) -> Vec<f32> {
    batch.iter().map(|message| float(message.base_value)).collect()
}

/// A spread of small-radius messages, large enough to exercise the index.
fn scattered_batch() -> Vec<PerceptionMessage<TestPercept>> {
    (0..16)
        .map(|i| ranged(TestPercept::Sound, 50.0, point(i as f32 * 40.0, 0.0), 30.0, None))
        .collect()
}

fn build(batch: &Vec<PerceptionMessage<TestPercept>>) -> MessageIndex {
    let mut index = MessageIndex::default();
    let mut ranges = Vec::new();
    assert!(index.build::<Machine, TestPercept>(batch, &mut ranges));
    index
}

fn perceiver(bits: u64, position: Vec2) -> Perceiver<TestPercept> {
    Perceiver { entity: entity(bits), position, memory: Memory::default() }
}

fn memory_values(perceiver: &Perceiver<TestPercept>) -> Vec<f32> {
    perceiver.memory.iter().map(|entry| float(entry.value)).collect()
}

/// Runs one frame of propagation with fresh storage.
fn run(
    messages: Vec<PerceptionMessage<TestPercept>>,
    perceivers: &mut Vec<Perceiver<TestPercept>>,
    config: &PerceptionConfig,
) -> Vec<usize> {
    let mut scratch = PropagationScratch::default();
    propagate_perception::<Machine, TestPercept>(&messages, perceivers, config, &mut scratch)
}

// Messages and memories.

#[test]
fn perception_message_creates_memory() {
    let mut perceivers = vec![perceiver(1, point(0.0, 0.0))];
    run(
        vec![message(TestPercept::Sound, 40.0, point(10.0, 0.0), None)],
        &mut perceivers,
        &PerceptionConfig::default(),
    );
    let memory = &perceivers[0].memory;
    assert_eq!(memory.len(), 1);
    let entry = memory.strongest().unwrap();
    assert_eq!(entry.percept, TestPercept::Sound);
    // 40 - 20*log10(10) = 40 - 20 = 20
    assert!((float(entry.value) - 20.0).abs() < 0.1);
    assert!(entry.source.is_none());
}

#[test]
fn perception_message_out_of_range_ignored() {
    let mut perceivers = vec![perceiver(1, point(0.0, 0.0))];
    run(
        vec![message(TestPercept::Sound, 40.0, point(200.0, 0.0), None)],
        &mut perceivers,
        &PerceptionConfig::default(),
    );
    assert!(perceivers[0].memory.is_empty());
}

#[test]
fn logarithmic_attenuation_at_close_range() {
    let mut perceivers = vec![perceiver(1, point(0.5, 0.0))];
    run(
        vec![message(TestPercept::Sound, 30.0, point(0.0, 0.0), None)],
        &mut perceivers,
        &PerceptionConfig::default(),
    );
    let entry = perceivers[0].memory.strongest().unwrap();
    assert!((float(entry.value) - 30.0).abs() < f32::EPSILON);
}

#[test]
fn multiple_messages_accumulate() {
    let mut perceivers = vec![perceiver(1, point(0.0, 0.0))];
    run(
        vec![
            message(TestPercept::Sound, 30.0, point(1.0, 0.0), None),
            message(TestPercept::Sound, 20.0, point(0.0, 1.0), None),
        ],
        &mut perceivers,
        &PerceptionConfig::default(),
    );
    let memory = &perceivers[0].memory;
    assert_eq!(memory.len(), 2);
    assert!(float(memory.sum::<Machine>()) > 0.0);
}

#[test]
fn self_caused_message_filtered() {
    let actor = entity(1);
    let mut perceivers = vec![perceiver(1, point(0.0, 0.0))];
    run(
        vec![message(TestPercept::Sound, 40.0, point(0.0, 0.0), Some(actor))],
        &mut perceivers,
        &PerceptionConfig::default(),
    );
    assert!(
        perceivers[0].memory.is_empty(),
        "Actor should not perceive its own sounds"
    );
}

#[test]
fn attenuation_matches_reference_values() {
    // `V = V_base - 20 * log10(distance)`, flat inside one unit.
    let cases = [
        (0.5, 30.0, 30.0),
        (1.0, 30.0, 30.0),
        (2.0, 30.0, 30.0 - 20.0 * 2.0f32.log10()),
        (10.0, 40.0, 20.0),
        (100.0, 60.0, 20.0),
        (1000.0, 90.0, 30.0),
    ];

    for (distance, base_value, expected) in cases {
        let mut perceivers = vec![perceiver(1, point(distance, 0.0))];
        run(
            vec![ranged(TestPercept::Sound, base_value, point(0.0, 0.0), 5000.0, None)],
            &mut perceivers,
            &PerceptionConfig::default(),
        );
        let values = memory_values(&perceivers[0]);
        assert_eq!(values.len(), 1, "distance {distance} should yield a memory");
        assert!(
            (values[0] - expected).abs() < 1e-3,
            "distance {distance}: expected {expected}, got {}",
            values[0]
        );
    }
}

#[test]
fn range_boundary_is_exclusive_beyond_the_radius() {
    let mut perceivers = vec![perceiver(1, point(99.0, 0.0)), perceiver(2, point(101.0, 0.0))];
    run(
        vec![message(TestPercept::Sound, 80.0, point(0.0, 0.0), None)],
        &mut perceivers,
        &PerceptionConfig::default(),
    );
    assert_eq!(memory_values(&perceivers[0]).len(), 1);
    assert!(memory_values(&perceivers[1]).is_empty());
}

#[test]
fn identical_origins_collapse_into_one_memory() {
    let mut perceivers = vec![perceiver(1, point(10.0, 0.0))];
    let messages = [30.0, 45.0, 35.0]
        .into_iter()
        .map(|base_value| message(TestPercept::Sound, base_value, point(0.0, 0.0), None))
        .collect();
    run(messages, &mut perceivers, &PerceptionConfig::default());

    let values = memory_values(&perceivers[0]);
    assert_eq!(values.len(), 1, "a burst from one origin is one memory");
    // Strongest of the three, attenuated by 20*log10(10).
    assert!((values[0] - 25.0).abs() < 1e-3, "got {}", values[0]);
}

#[test]
fn distinct_origins_stay_separate_memories() {
    let mut perceivers = vec![perceiver(1, point(0.0, 0.0))];
    let messages = [10.0, 20.0, 30.0]
        .into_iter()
        .map(|offset| message(TestPercept::Sound, 60.0, point(offset, 0.0), None))
        .collect();
    run(messages, &mut perceivers, &PerceptionConfig::default());
    assert_eq!(memory_values(&perceivers[0]).len(), 3);
}

#[test]
fn indexed_and_exhaustive_paths_agree() {
    // Enough messages and perceivers to cross the spatial-index threshold,
    // compared against a run kept below it by splitting the batch.
    let origins: Vec<Vec2> = (0..64)
        .map(|i| point((i % 8) as f32 * 60.0, (i / 8) as f32 * 60.0))
        .collect();
    let positions: Vec<Vec2> = (0..96)
        .map(|i| point((i % 12) as f32 * 40.0, (i / 12) as f32 * 40.0))
        .collect();
    let message_at = |origin: Vec2| ranged(TestPercept::Sound, 70.0, origin, 150.0, None);
    let actors = || -> Vec<Perceiver<TestPercept>> {
        positions
            .iter()
            .enumerate()
            .map(|(i, &position)| perceiver(i as u64, position))
            .collect()
    };

    let mut indexed = actors();
    run(
        origins.iter().map(|&origin| message_at(origin)).collect(),
        &mut indexed,
        &PerceptionConfig::default(),
    );

    // One message per run keeps the batch too small for the index.
    let mut exhaustive = actors();
    let unlimited = PerceptionConfig { max_count: 0, ..PerceptionConfig::default() };
    for &origin in &origins {
        run(vec![message_at(origin)], &mut exhaustive, &unlimited);
    }

    for (a, b) in indexed.iter().zip(&exhaustive) {
        let mut expected = memory_values(b);
        // The indexed run keeps the default 16-entry cap; compare the same
        // newest-first window.
        expected.truncate(16);
        let got = memory_values(a);
        assert_eq!(
            got.len(),
            expected.len(),
            "memory count must match the exhaustive run"
        );
        for (got, expected) in got.iter().zip(&expected) {
            assert!(
                (got - expected).abs() < 1e-4,
                "indexed {got} vs exhaustive {expected}"
            );
        }
    }
}

// Merging.

#[test]
fn merges_identical_origins_keeping_strongest() {
    let origin = point(3.0, 4.0);
    let batch = merge(
        vec![
            message(TestPercept::Sound, 10.0, origin, None),
            message(TestPercept::Sound, 25.0, origin, None),
            message(TestPercept::Sound, 15.0, origin, None),
        ],
        0.0,
    );

    assert_eq!(batch.len(), 1);
    assert!((float(batch[0].base_value) - 25.0).abs() < f32::EPSILON);
}

#[test]
fn keeps_messages_with_different_percepts_apart() {
    let origin = point(1.0, 1.0);
    let batch = merge(
        vec![
            message(TestPercept::Sound, 10.0, origin, None),
            message(TestPercept::Pain, 20.0, origin, None),
        ],
        0.0,
    );

    assert_eq!(batch.len(), 2);
}

#[test]
fn keeps_messages_from_different_sources_apart() {
    let origin = point(0.0, 0.0);
    let a = entity(1);
    let b = entity(2);
    let batch = merge(
        vec![
            message(TestPercept::Sound, 10.0, origin, Some(a)),
            message(TestPercept::Sound, 20.0, origin, Some(b)),
        ],
        0.0,
    );

    assert_eq!(batch.len(), 2);
}

#[test]
fn merge_radius_groups_nearby_origins() {
    let batch = merge(
        vec![
            message(TestPercept::Sound, 10.0, point(0.1, 0.1), None),
            message(TestPercept::Sound, 30.0, point(0.9, 0.9), None),
        ],
        4.0,
    );

    assert_eq!(batch.len(), 1);
    assert!((float(batch[0].base_value) - 30.0).abs() < f32::EPSILON);
}

#[test]
fn negative_merge_radius_disables_merging() {
    let origin = point(0.0, 0.0);
    let batch = merge(
        vec![
            message(TestPercept::Sound, 10.0, origin, None),
            message(TestPercept::Sound, 20.0, origin, None),
        ],
        -1.0,
    );

    assert_eq!(batch.len(), 2);
}

#[test]
fn merging_preserves_batch_order() {
    let repeated = point(5.0, 5.0);
    let batch = merge(
        vec![
            message(TestPercept::Sound, 10.0, repeated, None),
            message(TestPercept::Sound, 40.0, point(80.0, 0.0), None),
            message(TestPercept::Sound, 30.0, repeated, None),
        ],
        0.0,
    );

    assert_eq!(batch.len(), 2);
    assert_eq!(batch[0].origin, repeated);
    assert!((float(batch[0].base_value) - 30.0).abs() < f32::EPSILON);
    assert_eq!(batch[1].origin, point(80.0, 0.0));
}

#[test]
fn merging_twice_changes_nothing_more() {
    let batch = merge(
        vec![
            message(TestPercept::Sound, 10.0, point(9.0, 1.0), None),
            message(TestPercept::Pain, 11.0, point(9.0, 1.0), None),
            message(TestPercept::Sound, 12.0, point(11.0, 3.0), None),
            message(TestPercept::Sound, 13.0, point(-1.0, 1.0), None),
            message(TestPercept::Pain, 14.0, point(10.0, 2.0), None),
            message(TestPercept::Sound, 9.0, point(8.0, 0.0), None),
        ],
        4.0,
    );
    assert_eq!(bases(&batch), vec![12.0, 14.0, 13.0]);
    assert_eq!(bases(&merge(batch, 4.0)), vec![12.0, 14.0, 13.0]);
}

#[test]
fn merging_tells_ranges_apart() {
    let origin = point(1.0, 1.0);
    let batch = merge(
        vec![
            ranged(TestPercept::Sound, 10.0, origin, 50.0, None),
            ranged(TestPercept::Sound, 20.0, origin, 60.0, None),
            ranged(TestPercept::Sound, 30.0, origin, 50.0, None),
        ],
        0.0,
    );
    assert_eq!(bases(&batch), vec![30.0, 20.0]);
}

#[test]
fn zero_radius_tells_origins_apart_by_bits() {
    let batch = merge(
        vec![
            message(TestPercept::Sound, 10.0, point(0.0, 0.0), None),
            message(TestPercept::Sound, 20.0, point(-0.0, 0.0), None),
            message(TestPercept::Sound, 30.0, point(0.0, 0.0), None),
        ],
        0.0,
    );
    assert_eq!(bases(&batch), vec![30.0, 20.0]);
}

#[test]
fn incomparable_percepts_are_not_merged() {
    let origin = point(1.0, 1.0);
    let batch = merge(
        vec![
            message(TestPercept::Murmur, 10.0, origin, None),
            message(TestPercept::Murmur, 20.0, origin, None),
        ],
        0.0,
    );
    assert_eq!(bases(&batch), vec![10.0, 20.0]);
}

#[test]
fn merging_sorts_groups_without_moving_messages() {
    // Keys come in falling order, so that the sort has to turn them round.
    let batch = merge(
        vec![
            message(TestPercept::Sound, 1.0, point(9.0, 9.0), Some(entity(7))),
            message(TestPercept::Sound, 2.0, point(9.0, 9.0), Some(entity(3))),
            message(TestPercept::Sound, 3.0, point(4.0, 4.0), None),
            message(TestPercept::Sound, 4.0, point(1.0, 1.0), None),
            message(TestPercept::Sound, 5.0, point(4.0, 4.0), None),
            message(TestPercept::Sound, 6.0, point(9.0, 9.0), Some(entity(7))),
        ],
        0.0,
    );
    assert_eq!(bases(&batch), vec![6.0, 2.0, 5.0, 4.0]);
}

// The spatial index.

#[test]
fn index_reports_every_message_reaching_a_cell() {
    let batch = scattered_batch();
    let index = build(&batch);

    let mut candidates = Vec::new();
    for (x, y) in [(0.0, 0.0), (41.0, 5.0), (600.0, -10.0f32)] {
        let probe = point(x, y);
        index.candidates_at::<Machine>(probe, &mut candidates);
        let expected = batch.iter().enumerate().filter(|(_, message)| {
            float(probe.distance_squared::<Machine>(message.origin))
                <= float(message.range) * float(message.range)
        });
        for (message_index, _) in expected {
            assert!(
                candidates.contains(&(message_index as u32)),
                "message {message_index} must be a candidate at {x}, {y}"
            );
        }
    }
}

#[test]
fn wide_messages_are_candidates_everywhere() {
    let mut batch = scattered_batch();
    batch.push(ranged(TestPercept::Sound, 50.0, point(0.0, 0.0), 100_000.0, None));
    let wide_index = batch.len() as u32 - 1;

    let index = build(&batch);
    assert_eq!(*index.wide(), vec![wide_index]);

    let mut candidates = Vec::new();
    index.candidates_at::<Machine>(point(9_000.0, 9_000.0), &mut candidates);
    assert_eq!(candidates, vec![wide_index]);
}

#[test]
fn candidates_stay_in_batch_order() {
    let mut batch = scattered_batch();
    // Cluster the origins so one cell holds several messages, and make one
    // of them wide so both candidate sources contribute.
    for (message_index, message) in batch.iter_mut().enumerate() {
        message.origin = point(message_index as f32, 0.0);
    }
    batch[3].range = number(100_000.0);

    let index = build(&batch);
    let mut candidates = Vec::new();
    index.candidates_at::<Machine>(point(0.0, 0.0), &mut candidates);

    assert!(candidates.len() > 1);
    assert!(
        candidates.windows(2).all(|pair| pair[0] < pair[1]),
        "candidates must be ascending: {candidates:?}"
    );
}

#[test]
fn rebuilding_reuses_buckets_without_stale_entries() {
    let batch = scattered_batch();
    let mut index = MessageIndex::default();
    let mut ranges = Vec::new();
    assert!(index.build::<Machine, TestPercept>(&batch, &mut ranges));
    let bucket_capacity = index.bucket_count();

    let smaller = batch[..8].to_vec();
    assert!(index.build::<Machine, TestPercept>(&smaller, &mut ranges));
    assert!(
        index.bucket_count() >= bucket_capacity,
        "buckets are retained"
    );

    let mut candidates = Vec::new();
    index.candidates_at::<Machine>(point(600.0, 0.0), &mut candidates);
    assert!(
        candidates.iter().all(|&i| (i as usize) < smaller.len()),
        "no indices from the previous build survive: {candidates:?}"
    );
}

#[test]
fn index_edge_is_the_upper_median_range() {
    // Ranges 30, 10, 20, 40: sorted, the one in the upper middle is 30.
    let batch: Vec<_> = [30.0, 10.0, 20.0, 40.0]
        .into_iter()
        .map(|range| ranged(TestPercept::Sound, 50.0, point(0.0, 0.0), range, None))
        .collect();
    let index = build(&batch);
    let mut candidates = Vec::new();
    // With an edge of 30, a range of 20 ends within the cell that starts at 0,
    // and ranges of 30 and 40 reach into the next.
    index.candidates_at::<Machine>(point(29.0, 0.0), &mut candidates);
    assert_eq!(candidates, vec![0, 1, 2, 3]);
    index.candidates_at::<Machine>(point(31.0, 0.0), &mut candidates);
    assert_eq!(candidates, vec![0, 3]);
    index.candidates_at::<Machine>(point(61.0, 0.0), &mut candidates);
    assert!(candidates.is_empty());
}

#[test]
fn batches_without_extent_are_not_indexed() {
    let mut index = MessageIndex::default();
    let mut ranges = Vec::new();
    for range in [0.0, f32::INFINITY, f32::NAN] {
        let batch = vec![ranged(TestPercept::Sound, 50.0, point(0.0, 0.0), range, None)];
        assert!(!index.build::<Machine, TestPercept>(&batch, &mut ranges));
    }
}

#[test]
fn reach_of_a_message() {
    let reach = reach_of::<Machine>(point(5.0, -5.0), number(10.0), number(10.0));
    assert_eq!(
        reach,
        Reach::Span { min: Cell { x: -1, y: -2 }, max: Cell { x: 1, y: 0 } }
    );
    assert_eq!(reach_of::<Machine>(point(0.0, 0.0), number(100.0), number(10.0)), Reach::Wide);
    assert_eq!(
        reach_of::<Machine>(point(f32::NAN, 0.0), number(10.0), number(10.0)),
        Reach::Wide
    );
}

#[test]
fn cells_have_keys_of_their_own() {
    assert_eq!(cell_key(Cell { x: 1, y: 2 }), (1 << 32) | 2);
    assert_eq!(cell_key(Cell { x: 0, y: -1 }), 0xffff_ffff);
    assert_eq!(cell_key(Cell { x: -1, y: 0 }), 0xffff_ffff_0000_0000);
}

#[test]
fn indexing_pays_from_a_number_of_pairs_on() {
    assert!(worth_indexing(64, 64));
    assert!(!worth_indexing(64, 63));
    assert!(worth_indexing(8, 512));
    assert!(!worth_indexing(7, 10_000));
    assert!(!worth_indexing(10_000, 31));
    assert!(worth_indexing(usize::MAX, usize::MAX));
}

// One message and one actor.

#[test]
fn attenuation_over_a_distance() {
    assert_eq!(float(attenuation::<Machine>(number(0.25))), 0.0);
    assert_eq!(float(attenuation::<Machine>(number(1.0))), 0.0);
    assert_eq!(float(attenuation::<Machine>(number(10.0))), 20.0);
    assert_eq!(float(attenuation::<Machine>(number(100.0))), 40.0);
}

#[test]
fn intensity_is_clamped_at_zero_and_compared_to_the_threshold() {
    assert_eq!(remember(number(3.0), number(0.5)).map(float), Some(3.0));
    assert_eq!(remember(number(0.5), number(0.5)).map(float), None);
    assert_eq!(remember(number(-3.0), number(-1.0)).map(float), Some(0.0));
    assert_eq!(remember(number(f32::NAN), number(-1.0)).map(float), Some(0.0));
}

#[test]
fn range_itself_is_within_range() {
    let loud = message(TestPercept::Sound, 80.0, point(0.0, 0.0), None);
    let at = |x: f32| heard::<Machine, TestPercept>(&loud, point(x, 0.0), number(0.5)).map(float);
    assert_eq!(at(100.0), Some(40.0));
    assert_eq!(at(100.5), None);
}

#[test]
fn attenuated_below_the_threshold_is_forgotten() {
    let mut perceivers = vec![perceiver(1, point(10.0, 0.0))];
    // 20.5 - 20 is at the threshold.
    let gained = run(
        vec![message(TestPercept::Sound, 20.5, point(0.0, 0.0), None)],
        &mut perceivers,
        &PerceptionConfig::default(),
    );
    assert_eq!(gained, vec![0]);
    assert!(perceivers[0].memory.is_empty());
}

// The frame as a whole.

#[test]
fn memories_hold_origin_and_source() {
    let mut perceivers = vec![perceiver(1, point(0.0, 0.0))];
    run(
        vec![message(TestPercept::Pain, 30.0, point(0.5, 0.0), Some(entity(9)))],
        &mut perceivers,
        &PerceptionConfig::default(),
    );
    let entry: &MemoryEntry<TestPercept> = perceivers[0].memory.strongest().unwrap();
    assert_eq!(entry.location, Some(LocationKnowledge::Origin(point(0.5, 0.0))));
    assert_eq!(entry.source, Some(entity(9)));
    assert_eq!(entry.percept, TestPercept::Pain);
}

#[test]
fn latest_message_is_the_newest_memory() {
    let config = PerceptionConfig { max_count: 3, ..PerceptionConfig::default() };
    let mut perceivers = vec![perceiver(1, point(0.0, 0.0)), perceiver(2, point(900.0, 0.0))];
    perceivers[0].memory.push(
        MemoryEntry {
            percept: TestPercept::Pain,
            value: number(5.0),
            location: None,
            source: None,
        },
        3,
    );
    let gained = run(
        vec![
            message(TestPercept::Sound, 10.0, point(0.1, 0.0), None),
            message(TestPercept::Sound, 20.0, point(0.2, 0.0), Some(entity(1))),
            message(TestPercept::Sound, 30.0, point(0.3, 0.0), None),
            message(TestPercept::Sound, 40.0, point(0.4, 0.0), None),
        ],
        &mut perceivers,
        &config,
    );
    assert_eq!(gained, vec![3, 0]);
    assert_eq!(memory_values(&perceivers[0]), vec![40.0, 30.0, 10.0]);
    assert!(perceivers[1].memory.is_empty());
}

#[test]
fn nothing_happens_without_messages_or_actors() {
    let config = PerceptionConfig::default();
    let mut perceivers = vec![perceiver(1, point(0.0, 0.0))];
    assert_eq!(run(vec![], &mut perceivers, &config), vec![0]);
    assert!(perceivers[0].memory.is_empty());
    let mut none: Vec<Perceiver<TestPercept>> = vec![];
    let heard = run(
        vec![message(TestPercept::Sound, 40.0, point(0.0, 0.0), None)],
        &mut none,
        &config,
    );
    assert!(heard.is_empty());
}

#[test]
fn negative_ranges_and_weak_messages_reach_no_one() {
    let mut perceivers = vec![perceiver(1, point(0.0, 0.0))];
    run(
        vec![
            ranged(TestPercept::Sound, 40.0, point(0.0, 0.0), -1.0, None),
            ranged(TestPercept::Sound, 40.0, point(0.0, 0.0), f32::NAN, None),
            message(TestPercept::Sound, 0.5, point(0.0, 0.0), None),
            message(TestPercept::Sound, -7.0, point(0.0, 0.0), None),
        ],
        &mut perceivers,
        &PerceptionConfig::default(),
    );
    assert!(perceivers[0].memory.is_empty());
}

#[test]
fn storage_can_be_used_again() {
    let config = PerceptionConfig::default();
    let mut scratch = PropagationScratch::default();
    let messages: Vec<_> = scattered_batch();
    let actors = || -> Vec<Perceiver<TestPercept>> {
        (0..300).map(|i| perceiver(i, point(i as f32 * 2.0, 0.0))).collect()
    };
    let mut fresh = actors();
    run(messages.clone(), &mut fresh, &config);
    let mut first = actors();
    propagate_perception::<Machine, TestPercept>(&messages, &mut first, &config, &mut scratch);
    let mut second = actors();
    propagate_perception::<Machine, TestPercept>(&messages, &mut second, &config, &mut scratch);
    for i in 0..300 {
        assert_eq!(memory_values(&fresh[i]), memory_values(&first[i]));
        assert_eq!(memory_values(&fresh[i]), memory_values(&second[i]));
    }
    assert_eq!(memory_values(&fresh[0]), vec![50.0]);
}

#[test]
fn without_rounding_indexed_and_exhaustive_agree_exactly() {
    // A range that is a power of two: nothing is rounded.
    let config = PerceptionConfig { max_count: 0, ..PerceptionConfig::default() };
    let messages: Vec<_> = (0..64)
        .map(|i| {
            let origin = point((i % 8) as f32 * 24.0, (i / 8) as f32 * 24.0);
            ranged(TestPercept::Sound, 70.0, origin, 32.0, Some(entity(i)))
        })
        .collect();
    let mut actors: Vec<_> = (0..96)
        .map(|i| perceiver(i, point((i % 12) as f32 * 16.0, (i / 12) as f32 * 16.0)))
        .collect();
    let gained = run(messages.clone(), &mut actors, &config);
    for (actor, count) in actors.iter().zip(gained) {
        let mut expected = vec![];
        for message in &messages {
            if message.source != Some(actor.entity) {
                if let Some(value) = heard::<Machine, TestPercept>(
                    message,
                    actor.position,
                    config.min_threshold,
                ) {
                    expected.insert(0, float(value));
                }
            }
        }
        assert_eq!(memory_values(actor), expected);
        assert_eq!(count, expected.len());
    }
}

#[test]
fn an_actor_exactly_at_the_range_is_not_missed() {
    // One over 41 is rounded: scaling 41 by it falls short of one.
    let near = ranged(TestPercept::Sound, 70.0, point(0.0, 0.0), 41.0, None);
    let mut messages = vec![near];
    for i in 1..64 {
        let origin = point(10_000.0 + 100.0 * i as f32, 0.0);
        messages.push(ranged(TestPercept::Sound, 70.0, origin, 41.0, None));
    }
    let actors = |x: f32| -> Vec<Perceiver<TestPercept>> {
        (0..64)
            .map(|i| perceiver(i, if i == 0 { point(x, 0.0) } else { point(-5_000.0, 0.0) }))
            .collect()
    };
    let config = PerceptionConfig::default();
    let indexed = |x: f32| run(messages.clone(), &mut actors(x), &config)[0];
    let exhaustive = |x: f32| run(vec![messages[0].clone()], &mut actors(x), &config)[0];
    for x in [40.9, 41.0, -41.0] {
        assert_eq!((indexed(x), exhaustive(x)), (1, 1));
    }
    for x in [41.1, -41.1] {
        assert_eq!((indexed(x), exhaustive(x)), (0, 0));
    }
    let index = build(&vec![messages[0].clone()]);
    let mut candidates = Vec::new();
    index.candidates_at::<Machine>(point(41.0, 0.0), &mut candidates);
    assert_eq!(candidates, vec![0]);
}

#[test]
fn what_rounding_lets_through_is_not_missed() {
    // A step of a little more than one is rounded to one, so the per-pair check
    // takes the actor as within range though it stands in the cell below zero.
    let just_below = -(2.0f32.powi(-30));
    let batch = vec![ranged(TestPercept::Sound, 70.0, point(1.0, 0.0), 1.0, None)];
    assert!(heard::<Machine, TestPercept>(&batch[0], point(just_below, 0.0), number(0.5)).is_some());
    let index = build(&batch);
    let mut candidates = Vec::new();
    index.candidates_at::<Machine>(point(just_below, 0.0), &mut candidates);
    assert_eq!(candidates, vec![0]);
}

/// A run of numbers that look random, of sizes from tiny to beyond what a square
/// can hold.
struct Numbers(u64);

impl Numbers {
    fn next(&mut self) -> u64 {
        self.0 = self.0.wrapping_mul(6364136223846793005).wrapping_add(1442695040888963407);
        self.0 >> 33
    }

    fn coordinate(&mut self, scale: f32) -> f32 {
        let steps = (self.next() % 33) as f32 - 16.0;
        match self.next() % 4 {
            0 => steps * scale,
            1 => steps * scale * (1.0 + f32::EPSILON),
            2 => steps * scale * 0.5 + scale / 3.0,
            _ => steps * scale * (self.next() % 1000) as f32 / 999.0,
        }
    }
}

#[test]
fn indexed_frames_are_what_an_exhaustive_loop_gives() {
    let config = PerceptionConfig {
        min_threshold: number(-1.0),
        max_count: 0,
        merge_radius: number(-1.0),
        ..PerceptionConfig::default()
    };
    let mut numbers = Numbers(7);
    let scales = [
        1.0, 41.0, 0.1, 1e-3, 1e6, 3e18, 1e-19, 1e-30, 1e30, 3e37, 1e-42, 0.7, 55.0, 1e9,
    ];
    let mut perceived = 0;
    for frame in 0..140 {
        let scale = scales[frame % scales.len()];
        let other = scales[(frame / 10) % scales.len()];
        let messages: Vec<_> = (0..64)
            .map(|i| {
                let place = point(numbers.coordinate(scale), numbers.coordinate(scale));
                let range = match numbers.next() % 4 {
                    0 => scale,
                    1 => (numbers.coordinate(scale)).abs(),
                    2 => scale * 3.0,
                    _ => if i % 16 == 0 { other } else { scale * 0.5 },
                };
                ranged(TestPercept::Sound, 70.0, place, range, None)
            })
            .collect();
        let mut actors: Vec<_> = (0..64)
            .map(|i| {
                // Some actors stand exactly at the range of a message.
                let message = &messages[(numbers.next() % 64) as usize];
                let (x, y) = (float(message.origin.x), float(message.origin.y));
                let range = float(message.range);
                let position = match numbers.next() % 5 {
                    0 => point(x + range, y),
                    1 => point(x, y - range),
                    2 => point(x - range * (1.0 + f32::EPSILON), y),
                    _ => point(numbers.coordinate(scale), numbers.coordinate(scale)),
                };
                perceiver(i, position)
            })
            .collect();
        let gained = run(messages.clone(), &mut actors, &config);
        for (actor, count) in actors.iter().zip(gained) {
            let expected: Vec<f32> = messages
                .iter()
                .rev()
                .filter_map(|message| {
                    heard::<Machine, TestPercept>(message, actor.position, number(-1.0)).map(float)
                })
                .collect();
            assert_eq!(memory_values(actor), expected);
            assert_eq!(count, expected.len());
            perceived += count;
        }
    }
    assert!(perceived > 1000);
}

#[test]
fn far_cells_are_not_taken_for_one() {
    let batch = merge(
        vec![
            message(TestPercept::Sound, 10.0, point(1e7, 0.0), None),
            message(TestPercept::Sound, 20.0, point(2e7, 0.0), None),
            message(TestPercept::Sound, 30.0, point(1e7, 0.0), None),
            message(TestPercept::Sound, 40.0, point(-1e7, 0.0), None),
        ],
        0.001,
    );
    assert_eq!(bases(&batch), vec![30.0, 20.0, 40.0]);
    assert_eq!(origin_key::<Machine>(point(-0.5, 7.5), number(2.0)), (0xffff_ffff, 3));
    let far = origin_key::<Machine>(point(1e7, -0.0), number(0.001));
    assert_eq!(far, (0x1_0000_0000 + 1e10f32.to_bits() as u64, 0));
}

/// The cells from one corner to the other.
fn span(min: (i32, i32), max: (i32, i32)) -> Reach {
    Reach::Span { min: Cell { x: min.0, y: min.1 }, max: Cell { x: max.0, y: max.1 } }
}

fn reach(x: f32, y: f32, range: f32, edge: f32) -> Reach {
    reach_of::<Machine>(point(x, y), number(range), number(edge))
}

#[test]
fn short_ranges_are_listed_in_few_cells() {
    // A range of one edge meets three lines of cells, on a grid line or off it.
    assert_eq!(reach(4.5, 4.25, 1.0, 1.0), span((3, 3), (5, 5)));
    assert_eq!(reach(4.0, 4.25, 1.0, 1.0), span((3, 3), (5, 5)));
    assert_eq!(reach(0.0, 0.0, 41.0, 41.0), span((-1, -1), (1, 1)));
    // Far out numbers are coarse, and nothing past the range is let through.
    assert_eq!(reach(2e6, 2e6, 1.0, 1.0), span((1_999_999, 1_999_999), (2_000_001, 2_000_001)));
    assert_eq!(reach(1e30, 0.0, 1.0, 1.0), span((i32::MAX, -1), (i32::MAX, 1)));
    assert_eq!(reach(0.0, 0.0, 1e18, 1e18), span((-1, -1), (1, 1)));
    // Next to zero numbers are fine, and places past a grid line are let through.
    assert_eq!(reach(1.0, 0.0, 1.0, 1.0), span((-1, -1), (2, 1)));
}

#[test]
fn a_message_in_many_cells_is_wide() {
    // Eight lines each way are as many as are listed.
    assert_eq!(reach(0.5, 0.5, 3.5, 1.0), span((-3, -3), (4, 4)));
    assert_eq!(reach(0.5, 0.5, 4.0, 1.0), Reach::Wide);
    assert_eq!(reach(1.0, 0.0, 1.0, 1e-30), Reach::Wide);
    // They are counted before they are read as integers.
    assert_eq!(reach(1e11, 1e11, 1e5, 30.0), Reach::Wide);
    assert_eq!(reach(3e38, 0.0, 1e10, 1.0), Reach::Wide);
    // A square that is infinite lets everything through, and one that is zero
    // lets through more than sixty-four cells of that edge.
    assert_eq!(reach(0.0, 0.0, 1.8e19, 1.8e19), span((-1, -1), (1, 1)));
    assert_eq!(reach(0.0, 0.0, 2e19, 1e38), Reach::Wide);
    assert_eq!(reach(0.0, 0.0, 1e-30, 1e-30), Reach::Wide);
    assert_eq!(reach(0.0, 0.0, f32::INFINITY, 1.0), Reach::Wide);
}

#[test]
fn a_range_below_zero_spans_no_cell() {
    assert_eq!(reach(0.0, 0.0, -5.0, 10.0), span((0, 0), (-1, -1)));
    assert_eq!(reach(5.0, 5.0, -20.0, 10.0), span((2, 2), (-2, -2)));
    let mut batch = vec![ranged(TestPercept::Sound, 50.0, point(5.0, 5.0), -20.0, None)];
    batch.push(ranged(TestPercept::Sound, 50.0, point(5.0, 5.0), 10.0, None));
    let index = build(&batch);
    let mut candidates = Vec::new();
    for x in -4..=4 {
        for y in -4..=4 {
            let place = point(10.0 * x as f32 + 5.0, 10.0 * y as f32 + 5.0);
            index.candidates_at::<Machine>(place, &mut candidates);
            let near = (-1..=1).contains(&x) && (-1..=1).contains(&y);
            assert_eq!(candidates, if near { vec![1] } else { vec![] });
        }
    }
}

#[test]
fn the_ends_of_a_range_are_the_last_places_let_through() {
    let up = |x: f32| f32::from_bits(x.to_bits() + 1);
    // Nothing past the range is let through.
    let (low, high) = ends::<Machine>(number(8.0), number(2.0), number(4.0));
    assert_eq!((float(low), float(high)), (6.0, 10.0));
    // Half the step from one to the next number is rounded away.
    let (low, high) = ends::<Machine>(number(1.0), number(1.0), number(1.0));
    assert_eq!(float(high), 2.0);
    let last = float(low);
    assert!(last < 0.0);
    assert_eq!(last - 1.0, -1.0);
    assert_ne!(-up(-last) - 1.0, -1.0);
    // A range below zero stays as it is.
    let (low, high) = ends::<Machine>(number(1.0), number(-2.0), number(4.0));
    assert_eq!((float(low), float(high)), (3.0, -1.0));
    // Every number that the check takes as within range is between the ends.
    let mut numbers = Numbers(3);
    for scale in [1.0, 0.3, 41.0, 1e-20, 1e18, 1e9] {
        for _ in 0..200 {
            let (centre, range) = (numbers.coordinate(scale), numbers.coordinate(scale).abs());
            let limit = range * range;
            let (low, high) = ends::<Machine>(number(centre), number(range), number(limit));
            let (low, high) = (float(low), float(high));
            assert!(low <= centre && centre <= high);
            assert!(low <= centre - range && centre + range <= high);
            for _ in 0..50 {
                let place = centre + numbers.coordinate(range / 8.0);
                let square = (place - centre) * (place - centre);
                assert!(square > limit || (low <= place && place <= high));
            }
        }
    }
}

#[test]
fn one_run_is_the_newest_of_a_succession() {
    let config = PerceptionConfig { max_count: 5, ..PerceptionConfig::default() };
    let endless = PerceptionConfig { max_count: 0, ..config };
    let messages: Vec<_> = (0..64)
        .map(|i| {
            let origin = point((i % 8) as f32 * 9.0, (i / 8) as f32 * 7.0);
            ranged(TestPercept::Sound, 40.0 + i as f32, origin, 30.0, Some(entity(i)))
        })
        .collect();
    let actors = || -> Vec<Perceiver<TestPercept>> {
        (0..64).map(|i| perceiver(i, point((i % 8) as f32 * 8.0, (i / 8) as f32 * 8.0))).collect()
    };
    let mut at_once = actors();
    let gained = run(messages.clone(), &mut at_once, &config);
    let mut in_turn = actors();
    for message in &messages {
        run(vec![message.clone()], &mut in_turn, &endless);
    }
    for i in 0..64 {
        let mut expected = memory_values(&in_turn[i]);
        assert_eq!(expected.len(), gained[i]);
        assert!(expected.len() > 5);
        expected.truncate(5);
        assert_eq!(memory_values(&at_once[i]), expected);
    }
}

#[test]
fn a_steady_load_makes_no_storage() {
    let batch = scattered_batch();
    let mut index = build(&batch);
    let mut ranges = Vec::new();
    let storage = index.bucket_count();
    for _ in 0..5 {
        assert!(index.build::<Machine, TestPercept>(&batch, &mut ranges));
        assert_eq!(index.bucket_count(), storage);
        let smaller = batch[..3].to_vec();
        assert!(index.build::<Machine, TestPercept>(&smaller, &mut ranges));
        assert_eq!(index.bucket_count(), storage);
    }
}

#[test]
fn a_rebuilt_index_answers_as_a_fresh_one() {
    let mut batch = scattered_batch();
    let mut index = build(&batch);
    batch.reverse();
    batch.truncate(5);
    batch[2].range = number(5_000.0);
    let mut ranges = Vec::new();
    assert!(index.build::<Machine, TestPercept>(&batch, &mut ranges));
    let fresh = build(&batch);
    let (mut a, mut b) = (Vec::new(), Vec::new());
    for x in -10..70 {
        index.candidates_at::<Machine>(point(x as f32 * 10.0, 3.0), &mut a);
        fresh.candidates_at::<Machine>(point(x as f32 * 10.0, 3.0), &mut b);
        assert_eq!(a, b);
    }
}

#[test]
fn distance_never_strengthens() {
    let loud = ranged(TestPercept::Sound, 60.0, point(0.0, 0.0), 10_000.0, None);
    let mut last = f32::INFINITY;
    for step in 0..200 {
        let position = point(step as f32 * 4.0, step as f32 * 3.0);
        if let Some(value) = heard::<Machine, TestPercept>(&loud, position, number(0.5)) {
            assert!(float(value) <= 60.0);
            assert!(float(value) <= last);
            last = float(value);
        }
    }
    assert!(last < 10.0);
}
