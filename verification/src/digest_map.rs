//! The map from percepts to their summaries.

use crate::memory::LocationKnowledge;
use crate::percept::Entity;
use crate::scalar::{Scalar, ZERO_BITS};
use bevy::platform::collections::HashMap;
use core::hash::Hash;
use vstd::prelude::*;

verus! {

/// Summary of all memories of one percept.
///
/// The strongest fields describe one memory, the one with the highest value;
/// the oldest of those that share it.
#[derive(Clone, Copy, Debug)]
pub struct PerceptDigest {
    /// The value of the strongest memory.
    pub strongest_value: Scalar,
    /// Location knowledge from the strongest memory, if any.
    pub strongest_location: Option<LocationKnowledge>,
    /// The entity that caused the strongest memory, if known.
    pub strongest_source: Option<Entity>,
    /// Sum of all memory values of this percept.
    pub total_value: Scalar,
}

impl PerceptDigest {
    /// `self == other`: equal numbers, locations and sources.
    pub open spec fn equals(self, other: PerceptDigest) -> bool {
        &&& self.strongest_value.equals(other.strongest_value)
        &&& match (self.strongest_location, other.strongest_location) {
            (Some(a), Some(b)) => a.equals(b),
            (None, None) => true,
            _ => false,
        }
        &&& self.strongest_source == other.strongest_source
        &&& self.total_value.equals(other.total_value)
    }
}

impl Default for PerceptDigest {
    fn default() -> (digest: PerceptDigest)
        ensures
            digest.strongest_value == Scalar::from_bits(ZERO_BITS),
            digest.strongest_location is None,
            digest.strongest_source is None,
            digest.total_value == Scalar::from_bits(ZERO_BITS),
    {
        PerceptDigest {
            strongest_value: Scalar::from_bits(ZERO_BITS),
            strongest_location: None,
            strongest_source: None,
            total_value: Scalar::from_bits(ZERO_BITS),
        }
    }
}

impl PartialEq for PerceptDigest {
    fn eq(&self, other: &PerceptDigest) -> (answer: bool) {
        let locations = match (self.strongest_location, other.strongest_location) {
            (Some(a), Some(b)) => a == b,
            (None, None) => true,
            _ => false,
        };
        let sources = match (self.strongest_source, other.strongest_source) {
            (Some(a), Some(b)) => a == b,
            (None, None) => true,
            _ => false,
        };
        self.strongest_value == other.strongest_value && locations && sources && self.total_value
            == other.total_value
    }
}

impl vstd::std_specs::cmp::PartialEqSpecImpl for PerceptDigest {
    open spec fn obeys_eq_spec() -> bool {
        true
    }

    open spec fn eq_spec(&self, other: &PerceptDigest) -> bool {
        self.equals(*other)
    }
}

/// `bevy::platform::collections::HashMap`, as a type that can be held.
#[verifier::external_type_specification]
#[verifier::external_body]
#[verifier::reject_recursive_types(K)]
#[verifier::reject_recursive_types(V)]
#[verifier::reject_recursive_types(S)]
pub struct ExHashMap<K, V, S>(HashMap<K, V, S>);

/// `bevy::platform::hash::FixedHasher`, the hasher of that map.
#[verifier::external_type_specification]
#[verifier::external_body]
pub struct ExFixedHasher(bevy::platform::hash::FixedHasher);

/// Summaries by percept.
///
/// The view is what the table holds; the functions of this type that change
/// the table state what that does to the view. As for the keys of any hash map,
/// the `==` of percepts and their hash have to agree with each other.
#[verifier::reject_recursive_types(P)]
pub struct DigestMap<P> {
    table: HashMap<P, PerceptDigest>,
    contents: Ghost<Map<P, PerceptDigest>>,
}

impl<P> View for DigestMap<P> {
    type V = Map<P, PerceptDigest>;

    closed spec fn view(&self) -> Map<P, PerceptDigest> {
        self.contents@
    }
}

/// `keys` lists the keys of `map`, each once.
pub open spec fn lists_keys<P>(map: Map<P, PerceptDigest>, keys: Seq<P>) -> bool {
    &&& keys.no_duplicates()
    &&& forall|key: P| map.contains_key(key) <==> #[trigger] keys.contains(key)
}

/// `values` are the summaries of `map` in the order of `keys`.
pub open spec fn values_by<P>(
    map: Map<P, PerceptDigest>,
    keys: Seq<P>,
    values: Seq<PerceptDigest>,
) -> bool {
    &&& values.len() == keys.len()
    &&& forall|i: int| 0 <= i < keys.len() ==> #[trigger] values[i] == map[keys[i]]
}

/// `values` are the summaries of `map` in some order.
pub open spec fn lists_values<P>(map: Map<P, PerceptDigest>, values: Seq<PerceptDigest>) -> bool {
    exists|keys: Seq<P>| #[trigger] lists_keys(map, keys) && values_by(map, keys, values)
}

/// `==` of two maps: one set of keys, with equal summaries.
pub open spec fn maps_equal<P>(a: Map<P, PerceptDigest>, b: Map<P, PerceptDigest>) -> bool {
    &&& a.dom() == b.dom()
    &&& forall|key: P| #[trigger] a.contains_key(key) ==> a[key].equals(b[key])
}

impl<P> Default for DigestMap<P> {
    fn default() -> (map: DigestMap<P>)
        ensures
            map@ == Map::<P, PerceptDigest>::empty(),
    {
        DigestMap::with_new_table()
    }
}

impl<P> DigestMap<P> {
    /// An empty map, made by `HashMap::new`.
    #[verifier::external_body]
    fn with_new_table() -> (map: DigestMap<P>)
        ensures
            (map@ == Map::<P, PerceptDigest>::empty()),
    {
        DigestMap { table: HashMap::new(), contents: Ghost(Map::empty()) }
    }

    /// Takes everything out, with `HashMap::clear`.
    #[verifier::external_body]
    pub(crate) fn clear(&mut self)
        ensures
            (final(self)@ == Map::<P, PerceptDigest>::empty()),
    {
        self.table.clear();
        self.contents = Ghost(Map::empty());
    }

    /// Whether nothing is in the table, by `HashMap::is_empty`.
    #[verifier::external_body]
    fn table_is_empty(&self) -> (empty: bool)
        ensures
            empty == (self@.dom() =~= Set::empty()),
    {
        self.table.is_empty()
    }

    /// The summaries, by `HashMap::values`: one for each key, in an order that is
    /// not stated.
    #[verifier::external_body]
    pub(crate) fn values(&self) -> (values: Vec<PerceptDigest>)
        ensures
            lists_values(self@, values@),
    {
        self.table.values().copied().collect()
    }

    /// Whether there are no summaries.
    pub fn is_empty(&self) -> (empty: bool)
        ensures
            empty == (self@ == Map::<P, PerceptDigest>::empty()),
    {
        assert(self@.dom() =~= Set::empty() ==> self@ =~= Map::<P, PerceptDigest>::empty());
        self.table_is_empty()
    }
}

impl<P: Eq + Hash> DigestMap<P> {
    /// The summary in the table, by `HashMap::get`.
    #[verifier::external_body]
    fn table_get(&self, percept: &P) -> (digest: Option<&PerceptDigest>)
        requires
            vstd::std_specs::hash::obeys_key_model::<P>(),
        ensures
            match digest {
                Some(digest) => self@.contains_key(*percept) && *digest == self@[*percept],
                None => !self@.contains_key(*percept),
            },
    {
        self.table.get(percept)
    }

    /// Sets the summary in the table, with `HashMap::insert`.
    #[verifier::external_body]
    fn table_insert(&mut self, percept: P, digest: PerceptDigest)
        requires
            vstd::std_specs::hash::obeys_key_model::<P>(),
        ensures
            final(self)@ == old(self)@.insert(percept, digest),
    {
        self.contents = Ghost(self.contents@.insert(percept, digest));
        self.table.insert(percept, digest);
    }

    /// Whether two maps are equal, by `==` of `HashMap`: the numbers of keys are
    /// equal, and `==` of the summaries holds under each key.
    #[verifier::external_body]
    pub(crate) fn same(&self, other: &DigestMap<P>) -> (answer: bool)
        requires
            vstd::std_specs::hash::obeys_key_model::<P>(),
        ensures
            answer == maps_equal(self@, other@),
    {
        self.table == other.table
    }

    /// The summary of a percept, if there are memories of it.
    pub fn get(&self, percept: &P) -> (digest: Option<&PerceptDigest>)
        requires
            vstd::std_specs::hash::obeys_key_model::<P>(),
        ensures
            match digest {
                Some(digest) => self@.contains_key(*percept) && *digest == self@[*percept],
                None => !self@.contains_key(*percept),
            },
    {
        self.table_get(percept)
    }

    /// Sets the summary of a percept.
    pub fn insert(&mut self, percept: P, digest: PerceptDigest)
        requires
            vstd::std_specs::hash::obeys_key_model::<P>(),
        ensures
            final(self)@ == old(self)@.insert(percept, digest),
    {
        self.table_insert(percept, digest);
    }
}

} // verus!
