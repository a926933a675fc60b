//! The two scheduler state machines around the mesh.
//!
//! The surrounding application runs a tick loop and worker tasks; everything
//! it must decide — when to start a rebuild, which query result still
//! matters — is decided here, as pure transitions with contracts.  The
//! application performs the outside work (spawning a task, polling it) and
//! hands the outcome back.
//!
//! Two guarantees are stated and proved here: at most one mesh rebuild is
//! ever in flight, and per agent only the newest pending query's result is
//! applied (see [`lemma_rebuild_exclusive`] and [`lemma_newest_request_wins`]).

use vstd::prelude::*;

use crate::exclusion::ExclusionArea;
use crate::exclusion::Obstacle;
use crate::finder::PathFinder;
use crate::geometry::MapBounds;
use crate::path::PathResult;
use crate::path::PathTarget;
use crate::triangulation::is_triangulation;
use crate::triangulation::triangulate;

verus! {

#[verifier::external_type_specification]
#[verifier::external_body]
#[verifier::reject_recursive_types(K)]
#[verifier::reject_recursive_types(V)]
#[verifier::reject_recursive_types(S)]
pub struct ExAHashMap<K, V, S>(ahash::AHashMap<K, V, S>);

#[verifier::external_type_specification]
#[verifier::external_body]
pub struct ExRandomState(ahash::RandomState);

/// The pending-query bookkeeping table: agent identifier to generation.
pub type PendingMap = ahash::AHashMap<u64, u64>;

/// What a pending-query map holds, as a mathematical map from agent
/// identifier to query generation.
pub uninterp spec fn pending_entries(m: PendingMap) -> Map<u64, u64>;

/// The table with nothing pending.
pub open spec fn no_pending() -> Map<u64, u64> {
    Map::empty()
}

/// Relies on ahash::AHashMap::new; nothing is assumed of the fresh map.
#[verifier::external_body]
fn pending_new() -> PendingMap {
    ahash::AHashMap::new()
}

/// Relies on std's HashMap::clear, reached through ahash's DerefMut: the
/// map holds nothing afterwards.
#[verifier::external_body]
fn pending_clear(m: &mut PendingMap)
    ensures
        pending_entries(*final(m)) == no_pending(),
{
    m.clear();
}

/// Relies on ahash::AHashMap::insert: the key maps to the value afterwards,
/// all other keys are untouched.
#[verifier::external_body]
fn pending_insert(m: &mut PendingMap, k: u64, v: u64)
    ensures
        pending_entries(*final(m)) == pending_entries(*old(m)).insert(k, v),
{
    m.insert(k, v);
}

/// Relies on ahash::AHashMap::get: returns the value stored under the key,
/// if any.
#[verifier::external_body]
fn pending_get(m: &PendingMap, k: u64) -> (r: Option<u64>)
    ensures
        pending_entries(*m).dom().contains(k) ==> r == Some(pending_entries(*m)[k]),
        !pending_entries(*m).dom().contains(k) ==> r is None,
{
    m.get(&k).copied()
}

/// Relies on ahash::AHashMap::remove: the key is absent afterwards, all
/// other keys are untouched.
#[verifier::external_body]
fn pending_remove(m: &mut PendingMap, k: u64)
    ensures
        pending_entries(*final(m)) == pending_entries(*old(m)).remove(k),
{
    m.remove(&k);
}

/// A request that an agent's path be computed (or recomputed) to a target.
#[derive(Clone, Copy, PartialEq, Eq, Structural, Debug)]
pub struct UpdateEntityPath {
    pub entity: u64,
    pub target: PathTarget,
}

impl UpdateEntityPath {
    pub fn new(entity: u64, target: PathTarget) -> (r: UpdateEntityPath)
        ensures
            r.entity == entity,
            r.target == target,
    {
        UpdateEntityPath { entity, target }
    }

    pub fn entity(&self) -> (r: u64)
        ensures
            r == self.entity,
    {
        self.entity
    }

    pub fn target(&self) -> (r: PathTarget)
        ensures
            r == self.target,
    {
        self.target
    }
}

/// The mesh-rebuild state machine: {Clean, Dirty, Rebuilding} over two
/// flags.  Dirtiness sticks while a rebuild runs; a new rebuild may start
/// only when none is in flight.
pub struct UpdateFinderState {
    pub invalid: bool,
    pub rebuilding: bool,
}

impl UpdateFinderState {
    /// The obstacle layout changed: the published mesh is stale.
    pub fn invalidate(&mut self)
        ensures
            final(self).invalid,
            final(self).rebuilding == old(self).rebuilding,
    {
        self.invalid = true;
    }

    /// A rebuild should start this tick: the mesh is stale and no rebuild
    /// task is in flight.
    pub fn should_update(&self) -> (r: bool)
        ensures
            r == (self.invalid && !self.rebuilding),
    {
        self.invalid && !self.rebuilding
    }

    /// Marks the rebuild task as spawned and hands back the obstacle
    /// snapshot it must be run on; the caller passes the snapshot to
    /// [`create_finder`] on a worker.
    pub fn spawn_update(&mut self, obstacles: &Vec<Obstacle>) -> (snapshot: Vec<Obstacle>)
        requires
            old(self).invalid,
            !old(self).rebuilding,
        ensures
            final(self).rebuilding,
            !final(self).invalid,
            snapshot@ == obstacles@,
    {
        self.invalid = false;
        self.rebuilding = true;
        let mut snapshot: Vec<Obstacle> = Vec::new();
        let mut i: usize = 0;
        while i < obstacles.len()
            invariant
                i <= obstacles@.len(),
                snapshot@ == obstacles@.take(i as int),
            decreases obstacles@.len() - i,
        {
            snapshot.push(obstacles[i]);
            proof {
                assert(snapshot@ =~= obstacles@.take(i + 1));
            }
            i += 1;
        }
        proof {
            assert(obstacles@.take(obstacles@.len() as int) =~= obstacles@);
        }
        snapshot
    }

    /// Consumes the rebuild task's poll outcome.  A finished mesh retires
    /// the task and is handed on for publication; while none is finished
    /// the state is unchanged.
    pub fn check_result(&mut self, finished: Option<PathFinder>) -> (r: Option<PathFinder>)
        requires
            finished is Some ==> old(self).rebuilding,
        ensures
            match r {
                Some(_) => !final(self).rebuilding && finished is Some,
                None => *final(self) == *old(self) && finished is None,
            },
            finished is Some ==> r == finished,
    {
        match finished {
            Some(f) => {
                self.rebuilding = false;
                Some(f)
            },
            None => None,
        }
    }
}

impl Default for UpdateFinderState {
    /// Before anything is known the mesh counts as stale, so the first tick
    /// triggers the first rebuild.
    fn default() -> (r: Self)
        ensures
            r.invalid,
            !r.rebuilding,
    {
        UpdateFinderState { invalid: true, rebuilding: false }
    }
}

/// While a rebuild is in flight the machine refuses to start another: at
/// most one rebuild task ever exists.
pub proof fn lemma_rebuild_exclusive(s: UpdateFinderState)
    requires
        s.rebuilding,
    ensures
        !(s.invalid && !s.rebuilding),
{
}

/// The per-agent query bookkeeping: which generation of query is pending
/// for each agent.  A new request for an agent supersedes its pending one;
/// a completed task's result is applied only if its generation is still the
/// pending one.
pub struct UpdatePathsState {
    pub pending: PendingMap,
    pub next_generation: u64,
}

impl UpdatePathsState {
    pub open spec fn pending_spec(self) -> Map<u64, u64> {
        pending_entries(self.pending)
    }

    pub open spec fn next_generation_spec(self) -> u64 {
        self.next_generation
    }

    /// Every stored generation is older than the next one to be handed out.
    pub open spec fn wf(self) -> bool {
        forall|a: u64|
            self.pending_spec().dom().contains(a)
                ==> (#[trigger] self.pending_spec()[a]) < self.next_generation
    }

    /// Registers a new query for the agent, superseding any pending one,
    /// and returns its generation; the caller spawns the query task tagged
    /// with that generation.
    pub fn spawn_new(&mut self, entity: u64) -> (generation: u64)
        requires
            old(self).wf(),
            old(self).next_generation < u64::MAX,
        ensures
            final(self).wf(),
            generation == old(self).next_generation,
            final(self).pending_spec() == old(self).pending_spec().insert(entity, generation),
            final(self).next_generation_spec() == old(self).next_generation_spec() + 1,
    {
        let generation = self.next_generation;
        pending_insert(&mut self.pending, entity, generation);
        self.next_generation = self.next_generation + 1;
        proof {
            assert forall|a: u64| self.pending_spec().dom().contains(a)
                implies (#[trigger] self.pending_spec()[a]) < self.next_generation by {
                if a != entity {
                    assert(old(self).pending_spec().dom().contains(a));
                    assert(old(self).pending_spec()[a] < old(self).next_generation);
                }
            }
        }
        generation
    }

    /// Consumes one completed query task.  The result is applied only if
    /// its generation is still the agent's pending one; a superseded task's
    /// outcome is discarded and the state left unchanged.  An applied
    /// `Some` route replaces the agent's path, an applied `None` clears it.
    pub fn check_results(&mut self, entity: u64, generation: u64, outcome: Option<PathResult>)
        -> (applied: Option<Option<PathResult>>)
        ensures
            match applied {
                Some(o) => {
                    &&& old(self).pending_spec().dom().contains(entity)
                    &&& old(self).pending_spec()[entity] == generation
                    &&& o == outcome
                    &&& final(self).pending_spec() == old(self).pending_spec().remove(entity)
                },
                None => {
                    &&& !(old(self).pending_spec().dom().contains(entity)
                        && old(self).pending_spec()[entity] == generation)
                    &&& final(self).pending_spec() == old(self).pending_spec()
                },
            },
            final(self).next_generation_spec() == old(self).next_generation_spec(),
            old(self).wf() ==> final(self).wf(),
    {
        let current = pending_get(&self.pending, entity);
        let still_pending = match current {
            Some(g) => g == generation,
            None => false,
        };
        if still_pending {
            pending_remove(&mut self.pending, entity);
            proof {
                assert(self.pending_spec() =~= old(self).pending_spec().remove(entity));
                if old(self).wf() {
                    assert forall|a: u64| self.pending_spec().dom().contains(a)
                        implies (#[trigger] self.pending_spec()[a]) < self.next_generation by {
                        assert(old(self).pending_spec().dom().contains(a));
                    }
                }
            }
            Some(outcome)
        } else {
            None
        }
    }
}

impl Default for UpdatePathsState {
    fn default() -> (r: Self)
        ensures
            r.pending_spec() == no_pending(),
            r.next_generation_spec() == 0,
            r.wf(),
    {
        let mut pending = pending_new();
        pending_clear(&mut pending);
        UpdatePathsState { pending, next_generation: 0 }
    }
}

/// Two path requests for one agent before either completes: the first
/// request's generation no longer matches the pending entry, so only the
/// second request's result is ever applied.
pub proof fn lemma_newest_request_wins(
    s0: UpdatePathsState,
    s1: UpdatePathsState,
    s2: UpdatePathsState,
    entity: u64,
    g1: u64,
    g2: u64,
)
    requires
        s0.wf(),
        s0.next_generation_spec() < u64::MAX,
        // first request
        g1 == s0.next_generation_spec(),
        s1.pending_spec() == s0.pending_spec().insert(entity, g1),
        s1.next_generation_spec() == s0.next_generation_spec() + 1,
        s1.next_generation_spec() < u64::MAX,
        // second request, same tick, before either task finished
        g2 == s1.next_generation_spec(),
        s2.pending_spec() == s1.pending_spec().insert(entity, g2),
    ensures
        s2.pending_spec()[entity] == g2,
        g1 != g2,
        !(s2.pending_spec().dom().contains(entity) && s2.pending_spec()[entity] == g1),
        s2.pending_spec().dom().contains(entity) && s2.pending_spec()[entity] == g2,
{
    assert(s2.pending_spec().dom().contains(entity));
}

/// Builds a fresh path finder from an obstacle snapshot: exclusion areas,
/// the canonical triangulation of what they leave free, then the adjacency
/// graph.  This is the whole rebuild pipeline, run on a worker task.
pub fn create_finder(bounds: &MapBounds, obstacles: &Vec<Obstacle>) -> (r: PathFinder)
    requires
        bounds.wf(),
        forall|i: int| 0 <= i < obstacles@.len() ==> (#[trigger] obstacles@[i]).wf(),
    ensures
        r.wf(),
        is_triangulation(*bounds, exclusions_of(obstacles@), r.tris()),
        r.exclusions_spec() == exclusions_of(obstacles@),
{
    let exclusions = ExclusionArea::build(obstacles);
    proof {
        assert forall|i: int| 0 <= i < obstacles@.len()
            implies exclusions@[i] == #[trigger] exclusions_of(obstacles@)[i] by {
            assert(exclusions@[i].rect == obstacles@[i].exclusion_rect());
            assert(exclusions_of(obstacles@)[i]
                == (ExclusionArea { rect: obstacles@[i].exclusion_rect() }));
        }
        assert(exclusions@ =~= exclusions_of(obstacles@));
    }
    let triangles = triangulate(bounds, &exclusions);
    PathFinder::from_triangles(triangles, exclusions)
}

/// The exclusion areas an obstacle snapshot induces, one per obstacle.
pub open spec fn exclusions_of(obstacles: Seq<Obstacle>) -> Seq<ExclusionArea> {
    obstacles.map_values(|o: Obstacle| ExclusionArea { rect: o.exclusion_rect() })
}

} // verus!
