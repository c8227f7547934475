//! The fingerprint cache: how a stored fingerprint is named, and the order
//! of lookup, build and store.

use crate::landmark::HashEntry;
use crate::scanner::FailureKind;
use vstd::prelude::*;

verus! {

broadcast use vstd::string::group_string_axioms;

/// The directory, relative to where the scan runs, that holds the stored
/// fingerprints.
pub const CACHE_DIR: &'static str = "hashes";

/// Position of the last `.` of a name, or -1 where it has none.
pub open spec fn last_dot(name: Seq<char>) -> int
    decreases name.len(),
{
    if name.len() == 0 {
        -1
    } else if name.last() == '.' {
        name.len() - 1
    } else {
        last_dot(name.drop_last())
    }
}

/// A file name without its extension: what stands before the last `.`; the
/// whole name where it has no `.` or only begins with one.
pub open spec fn stem_of(name: Seq<char>) -> Seq<char> {
    if last_dot(name) <= 0 {
        name
    } else {
        name.take(last_dot(name))
    }
}

/// `last_dot` is where the name has a `.` with none after it.
pub proof fn lemma_last_dot_is_last(name: Seq<char>)
    ensures
        -1 <= last_dot(name) < name.len(),
        last_dot(name) >= 0 ==> name[last_dot(name)] == '.',
        forall|at: int| last_dot(name) < at < name.len() ==> name[at] != '.',
    decreases name.len(),
{
    if name.len() > 0 && name.last() != '.' {
        lemma_last_dot_is_last(name.drop_last());
        assert forall|at: int| last_dot(name) < at < name.len() implies name[at] != '.' by {
            if at < name.len() - 1 {
                assert(name.drop_last()[at] == name[at]);
            }
        }
    }
}

/// The name under which the fingerprint of a stem is stored.
pub open spec fn spec_cache_file_name(stem: Seq<char>) -> Seq<char> {
    stem + ".json"@
}

/// Finds the last `.` of a name.
fn find_last_dot(name: &str) -> (at: Option<usize>)
    ensures
        at is None <==> last_dot(name@) < 0,
        at matches Some(position) ==> position == last_dot(name@),
{
    let total = name.unicode_len();
    let mut found: Option<usize> = None;
    let mut seen: usize = 0;
    for c in it: name.chars()
        invariant
            it.seq() == name@,
            total == name@.len(),
            seen == it.index(),
            found is None <==> last_dot(name@.take(seen as int)) < 0,
            found matches Some(position) ==> position == last_dot(name@.take(seen as int)),
    {
        assert(name@.take(seen + 1).drop_last() =~= name@.take(seen as int));
        seen = seen + 1;
        if c == '.' {
            found = Some(seen - 1);
        }
    }
    assert(name@.take(seen as int) =~= name@);
    found
}

/// Derives the cache key of a track from its file name: the name without its
/// extension.
pub fn track_stem(file_name: &str) -> (stem: String)
    ensures
        stem@ == stem_of(file_name@),
{
    proof {
        lemma_last_dot_is_last(file_name@);
    }
    match find_last_dot(file_name) {
        Some(at) => {
            if at == 0 {
                String::from_str(file_name)
            } else {
                let head = file_name.substring_char(0, at);
                String::from_str(head)
            }
        },
        None => String::from_str(file_name),
    }
}

/// Names the file that holds the fingerprint stored under `stem`.
pub fn cache_file_name(stem: &str) -> (name: String)
    ensures
        name@ == spec_cache_file_name(stem@),
{
    let mut name = String::from_str(stem);
    name.append(".json");
    name
}

/// Where a lookup stands.
#[derive(Clone, Copy, Debug, PartialEq, Eq, Structural)]
pub enum CachePhase {
    /// Asked whether the fingerprint is stored.
    Probing,
    /// Reading the stored fingerprint.
    Loading,
    /// Computing the fingerprint.
    Building,
    /// Storing the computed fingerprint.
    Persisting,
    /// The lookup is over.
    Finished,
}

/// What the store or the builder answered.
#[derive(Clone, Copy, Debug, PartialEq, Eq, Structural)]
pub enum CacheEvent {
    /// A fingerprint is stored under the key.
    Found,
    /// Nothing is stored under the key.
    Missing,
    /// The stored fingerprint was read.
    Loaded,
    /// The stored fingerprint could not be read.
    LoadFailed,
    /// The fingerprint was computed.
    Built,
    /// The fingerprint could not be computed.
    BuildFailed { reason: FailureKind },
    /// The computed fingerprint was stored.
    Persisted,
    /// The computed fingerprint could not be stored.
    PersistFailed,
}

/// What the caller of a lookup does next.
#[derive(Clone, Copy, Debug, PartialEq, Eq, Structural)]
pub enum CacheAction {
    /// Read the stored fingerprint.
    Load,
    /// Compute the fingerprint.
    Build,
    /// Store the fingerprint just computed.
    Persist,
    /// Hand out the fingerprint read or computed.
    Return,
    /// Give the track up.
    Fail { reason: FailureKind },
}

/// The phase that follows an event and the action it asks for. A stored
/// fingerprint is read and never rebuilt, also where reading fails; a
/// missing one is built, then stored, then handed out. None for an event
/// that does not belong to the phase.
pub open spec fn spec_cache_step(phase: CachePhase, event: CacheEvent) -> Option<(CachePhase, CacheAction)> {
    match (phase, event) {
        (CachePhase::Probing, CacheEvent::Found) => Some((CachePhase::Loading, CacheAction::Load)),
        (CachePhase::Probing, CacheEvent::Missing) => Some(
            (CachePhase::Building, CacheAction::Build),
        ),
        (CachePhase::Loading, CacheEvent::Loaded) => Some(
            (CachePhase::Finished, CacheAction::Return),
        ),
        (CachePhase::Loading, CacheEvent::LoadFailed) => Some(
            (CachePhase::Finished, CacheAction::Fail { reason: FailureKind::CacheIo }),
        ),
        (CachePhase::Building, CacheEvent::Built) => Some(
            (CachePhase::Persisting, CacheAction::Persist),
        ),
        (CachePhase::Building, CacheEvent::BuildFailed { reason }) => Some(
            (CachePhase::Finished, CacheAction::Fail { reason }),
        ),
        (CachePhase::Persisting, CacheEvent::Persisted) => Some(
            (CachePhase::Finished, CacheAction::Return),
        ),
        (CachePhase::Persisting, CacheEvent::PersistFailed) => Some(
            (CachePhase::Finished, CacheAction::Fail { reason: FailureKind::CacheIo }),
        ),
        _ => None,
    }
}

/// Decides the next step of a lookup.
pub fn cache_step(phase: CachePhase, event: CacheEvent) -> (next: Option<(CachePhase, CacheAction)>)
    ensures
        next == spec_cache_step(phase, event),
{
    match phase {
        CachePhase::Probing => match event {
            CacheEvent::Found => Some((CachePhase::Loading, CacheAction::Load)),
            CacheEvent::Missing => Some((CachePhase::Building, CacheAction::Build)),
            _ => None,
        },
        CachePhase::Loading => match event {
            CacheEvent::Loaded => Some((CachePhase::Finished, CacheAction::Return)),
            CacheEvent::LoadFailed => Some(
                (CachePhase::Finished, CacheAction::Fail { reason: FailureKind::CacheIo }),
            ),
            _ => None,
        },
        CachePhase::Building => match event {
            CacheEvent::Built => Some((CachePhase::Persisting, CacheAction::Persist)),
            CacheEvent::BuildFailed { reason } => Some(
                (CachePhase::Finished, CacheAction::Fail { reason }),
            ),
            _ => None,
        },
        CachePhase::Persisting => match event {
            CacheEvent::Persisted => Some((CachePhase::Finished, CacheAction::Return)),
            CacheEvent::PersistFailed => Some(
                (CachePhase::Finished, CacheAction::Fail { reason: FailureKind::CacheIo }),
            ),
            _ => None,
        },
        CachePhase::Finished => None,
    }
}

/// A store of fingerprints by key, as far as a lookup is concerned.
pub type StoreModel = Map<Seq<char>, Seq<HashEntry>>;

/// What one lookup leaves behind.
pub struct LookupModel {
    /// The store after the lookup.
    pub store: StoreModel,
    /// The fingerprint handed out.
    pub fingerprint: Seq<HashEntry>,
    /// How often the fingerprint was computed.
    pub builds: nat,
}

/// The event with which a store that works, and a builder that would give
/// `built`, answer an action.
pub open spec fn model_answer(store: StoreModel, key: Seq<char>, action: Option<CacheAction>) -> CacheEvent {
    match action {
        None => if store.contains_key(key) {
            CacheEvent::Found
        } else {
            CacheEvent::Missing
        },
        Some(CacheAction::Load) => CacheEvent::Loaded,
        Some(CacheAction::Build) => CacheEvent::Built,
        _ => CacheEvent::Persisted,
    }
}

/// A lookup run to its end against a store that works: every action that
/// `spec_cache_step` asks for is done and answered, `steps` actions at most.
pub open spec fn model_run(
    phase: CachePhase,
    last: Option<CacheAction>,
    so_far: LookupModel,
    key: Seq<char>,
    built: Seq<HashEntry>,
    steps: nat,
) -> LookupModel
    decreases steps,
{
    if steps == 0 {
        so_far
    } else {
        match spec_cache_step(phase, model_answer(so_far.store, key, last)) {
            Some((next, CacheAction::Load)) => model_run(
                next,
                Some(CacheAction::Load),
                LookupModel { fingerprint: so_far.store[key], ..so_far },
                key,
                built,
                (steps - 1) as nat,
            ),
            Some((next, CacheAction::Build)) => model_run(
                next,
                Some(CacheAction::Build),
                LookupModel { fingerprint: built, builds: so_far.builds + 1, ..so_far },
                key,
                built,
                (steps - 1) as nat,
            ),
            Some((next, CacheAction::Persist)) => model_run(
                next,
                Some(CacheAction::Persist),
                LookupModel { store: so_far.store.insert(key, so_far.fingerprint), ..so_far },
                key,
                built,
                (steps - 1) as nat,
            ),
            _ => so_far,
        }
    }
}

/// One whole lookup of `key` in `store`, where building would give `built`.
pub open spec fn model_load_or_build(store: StoreModel, key: Seq<char>, built: Seq<HashEntry>) -> LookupModel {
    model_run(
        CachePhase::Probing,
        None,
        LookupModel { store, fingerprint: Seq::empty(), builds: 0 },
        key,
        built,
        4,
    )
}

/// A lookup of a key that is not stored builds the fingerprint once, stores
/// it and hands it out; the next lookup of that key hands out the same
/// fingerprint without building, whatever building would give then.
pub proof fn lemma_cache_round_trip(
    store: StoreModel,
    key: Seq<char>,
    built: Seq<HashEntry>,
    rebuilt: Seq<HashEntry>,
)
    requires
        !store.contains_key(key),
    ensures
        model_load_or_build(store, key, built).fingerprint == built,
        model_load_or_build(store, key, built).builds == 1,
        model_load_or_build(store, key, built).store == store.insert(key, built),
        model_load_or_build(model_load_or_build(store, key, built).store, key, rebuilt).fingerprint
            == built,
        model_load_or_build(model_load_or_build(store, key, built).store, key, rebuilt).builds == 0,
        model_load_or_build(model_load_or_build(store, key, built).store, key, rebuilt).store
            == store.insert(key, built),
{
    reveal_with_fuel(model_run, 5);
}

/// A lookup of a stored key hands out what is stored and leaves the store
/// as it is.
pub proof fn lemma_cache_hit_reads(store: StoreModel, key: Seq<char>, built: Seq<HashEntry>)
    requires
        store.contains_key(key),
    ensures
        model_load_or_build(store, key, built).fingerprint == store[key],
        model_load_or_build(store, key, built).builds == 0,
        model_load_or_build(store, key, built).store == store,
{
    reveal_with_fuel(model_run, 5);
}

} // verus!
