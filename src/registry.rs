//! The duplicate registry: the first path seen for each fingerprint.

use vstd::prelude::*;

verus! {

#[verifier::external_type_specification]
#[verifier::external_body]
#[verifier::reject_recursive_types(K)]
#[verifier::reject_recursive_types(V)]
#[verifier::reject_recursive_types(S)]
pub struct ExDashMap<K, V, S>(dashmap::DashMap<K, V, S>);

/// A concurrent map from fingerprints to paths.
pub type SeenMap = dashmap::DashMap<u128, String>;

/// What a map from fingerprints to paths holds.
pub uninterp spec fn seen_entries(m: SeenMap) -> Map<u128, Seq<char>>;

/// The registry contents before anything is registered.
pub open spec fn no_entries() -> Map<u128, Seq<char>> {
    Map::empty()
}

/// Relies on `dashmap::DashMap::new`: the new map is empty.
#[verifier::external_body]
fn seen_new() -> (r: SeenMap)
    ensures
        seen_entries(r) == no_entries(),
{
    dashmap::DashMap::new()
}

/// Relies on `dashmap::DashMap::get`: the value stored under the key, if any.
#[verifier::external_body]
fn seen_get(m: &SeenMap, fingerprint: u128) -> (r: Option<String>)
    ensures
        r is Some <==> seen_entries(*m).contains_key(fingerprint),
        r is Some ==> r->0@ == seen_entries(*m)[fingerprint],
{
    match m.get(&fingerprint) {
        Some(entry) => Some(entry.value().clone()),
        None => None,
    }
}

/// Relies on `dashmap::DashMap::insert`: the key maps to the new value
/// afterwards, and every other key keeps its value.
#[verifier::external_body]
fn seen_insert(m: &mut SeenMap, fingerprint: u128, path: String)
    ensures
        seen_entries(*final(m)) == seen_entries(*old(m)).insert(fingerprint, path@),
{
    m.insert(fingerprint, path);
}

/// The outcome of registering a directory's fingerprint.
#[derive(Debug)]
pub enum Verdict {
    /// The fingerprint was new: this path is now its canonical path.
    Canonical,
    /// The fingerprint had been registered before, under `canonical`.
    Duplicate { canonical: String },
}

/// The registry after registering `path` under `fingerprint`: insert if absent.
pub open spec fn register_step(
    m: Map<u128, Seq<char>>,
    fingerprint: u128,
    path: Seq<char>,
) -> Map<u128, Seq<char>> {
    if m.contains_key(fingerprint) {
        m
    } else {
        m.insert(fingerprint, path)
    }
}

/// The verdict on registering a fingerprint: `None` for canonical, else the
/// path registered first.
pub open spec fn verdict_of(m: Map<u128, Seq<char>>, fingerprint: u128) -> Option<Seq<char>> {
    if m.contains_key(fingerprint) {
        Some(m[fingerprint])
    } else {
        None
    }
}

pub open spec fn verdict_view(v: Verdict) -> Option<Seq<char>> {
    match v {
        Verdict::Canonical => None,
        Verdict::Duplicate { canonical } => Some(canonical@),
    }
}

/// Maps each fingerprint to the first path registered with it.
pub struct DuplicateRegistry {
    seen: SeenMap,
}

impl View for DuplicateRegistry {
    type V = Map<u128, Seq<char>>;

    closed spec fn view(&self) -> Map<u128, Seq<char>> {
        seen_entries(self.seen)
    }
}

impl DuplicateRegistry {
    /// An empty registry.
    pub fn new() -> (r: DuplicateRegistry)
        ensures
            r@ == no_entries(),
    {
        DuplicateRegistry { seen: seen_new() }
    }

    /// The canonical path of a fingerprint, if it has been registered.
    pub fn canonical_path(&self, fingerprint: u128) -> (r: Option<String>)
        ensures
            r is Some <==> self@.contains_key(fingerprint),
            r is Some ==> r->0@ == self@[fingerprint],
    {
        seen_get(&self.seen, fingerprint)
    }

    /// Registers `path` under `fingerprint` unless the fingerprint is already
    /// present. The first path stays canonical; a later one is a duplicate of
    /// it and leaves the registry unchanged.
    pub fn register_if_absent(&mut self, fingerprint: u128, path: String) -> (r: Verdict)
        ensures
            final(self)@ == register_step(old(self)@, fingerprint, path@),
            verdict_view(r) == verdict_of(old(self)@, fingerprint),
    {
        match seen_get(&self.seen, fingerprint) {
            Some(existing) => Verdict::Duplicate { canonical: existing },
            None => {
                seen_insert(&mut self.seen, fingerprint, path);
                Verdict::Canonical
            },
        }
    }
}

/// Whichever of two paths with one fingerprint is registered first stays
/// canonical: registering the second reports the first and changes nothing.
pub proof fn lemma_first_seen_wins(
    m: Map<u128, Seq<char>>,
    fingerprint: u128,
    first: Seq<char>,
    second: Seq<char>,
)
    requires
        !m.contains_key(fingerprint),
    ensures
        verdict_of(m, fingerprint) is None,
        verdict_of(register_step(m, fingerprint, first), fingerprint) == Some(first),
        register_step(register_step(m, fingerprint, first), fingerprint, second) == register_step(
            m,
            fingerprint,
            first,
        ),
{
}

} // verus!
