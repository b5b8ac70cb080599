//! Generational entity handles and their allocator.
//!
//! An entity is an index plus a generation. Deleting a live entity bumps the
//! generation stored for its index, so every handle taken before the deletion
//! stops being valid, and queues the index for reuse; deleting a handle that
//! is not live changes nothing.
use std::collections::VecDeque;
use vstd::prelude::*;

verus! {

broadcast use vstd::std_specs::vecdeque::group_vec_dequeue_axioms;

/// A handle to an entity: an index and the generation it was issued with.
#[derive(Debug, Clone, Copy, PartialEq, Eq, Hash, Structural)]
pub struct Entity {
    id: u64,
    generation: u64,
}

impl Entity {
    /// The index of the handle.
    pub closed spec fn spec_id(&self) -> u64 {
        self.id
    }

    /// The generation of the handle.
    pub closed spec fn spec_generation(&self) -> u64 {
        self.generation
    }

    /// Creates a handle from an index and a generation.
    pub fn new(id: u64, generation: u64) -> (e: Self)
        ensures
            e.spec_id() == id,
            e.spec_generation() == generation,
    {
        Entity { id, generation }
    }

    /// The index of the handle.
    #[verifier::when_used_as_spec(spec_id)]
    pub fn id(&self) -> (r: u64)
        ensures
            r == self.spec_id(),
    {
        self.id
    }

    /// The generation of the handle.
    #[verifier::when_used_as_spec(spec_generation)]
    pub fn generation(&self) -> (r: u64)
        ensures
            r == self.spec_generation(),
    {
        self.generation
    }
}

/// Creates, deletes and recycles entity indices.
pub struct EntityManager {
    next_id: u64,
    generations: Vec<u64>,
    recycled_ids: VecDeque<u64>,
    queued: Vec<bool>,
}

/// A sequence without repeats whose entries lie below `n` has at most `n`
/// entries.
proof fn lemma_distinct_below(s: Seq<u64>, n: u64)
    requires
        s.no_duplicates(),
        forall|i: int| 0 <= i < s.len() ==> #[trigger] s[i] < n,
    ensures
        s.len() <= n,
{
    let f = |x: u64| x as int;
    assert(vstd::relations::injective(f));
    s.lemma_no_duplicates_injective(f);
    let t = s.map_values(f);
    t.unique_seq_to_set();
    let range = vstd::set_lib::set_int_range(0, n as int);
    vstd::set_lib::lemma_int_range(0, n as int);
    assert forall|x: int| t.to_set().contains(x) implies range.contains(x) by {
        let k = choose|k: int| 0 <= k < t.len() && t[k] == x;
        assert(s[k] < n);
    }
    vstd::set_lib::lemma_len_subset(t.to_set(), range);
}

impl EntityManager {
    /// The next never-used index.
    pub closed spec fn spec_next_id(&self) -> u64 {
        self.next_id
    }

    /// The current generation of every index handed out so far.
    pub closed spec fn spec_generations(&self) -> Seq<u64> {
        self.generations@
    }

    /// The indices waiting for reuse, oldest first.
    pub closed spec fn spec_recycled(&self) -> Seq<u64> {
        self.recycled_ids@
    }

    /// The manager's internal invariant: one generation per index handed out,
    /// and each such index queued for reuse at most once.
    pub closed spec fn wf(&self) -> bool {
        &&& self.generations@.len() == self.next_id
        &&& self.next_id <= usize::MAX
        &&& self.recycled_ids@.no_duplicates()
        &&& forall|i: int| 0 <= i < self.recycled_ids@.len() ==> #[trigger] self.recycled_ids@[i] < self.next_id
        &&& self.queued@.len() == self.next_id
        &&& forall|i: u64| i < self.next_id ==> (#[trigger] self.queued@[i as int] <==> self.recycled_ids@.contains(i))
    }

    /// `e` is valid: its index was handed out and its generation is the
    /// current one for that index.
    pub open spec fn valid_handle(&self, e: Entity) -> bool {
        &&& e.spec_id() < self.spec_generations().len()
        &&& e.spec_generation() == self.spec_generations()[e.spec_id() as int]
    }

    /// `e` names a live entity: it is valid and its index is not waiting for
    /// reuse (it was handed out and not deleted since).
    pub open spec fn live(&self, e: Entity) -> bool {
        &&& self.valid_handle(e)
        &&& !self.spec_recycled().contains(e.spec_id())
    }

    /// The number of live entities: indices handed out minus those waiting
    /// for reuse.
    pub open spec fn live_count(&self) -> int {
        self.spec_next_id() - self.spec_recycled().len()
    }

    /// The invariant bounds the queue by the indices handed out.
    pub proof fn lemma_wf_bounds(&self)
        requires
            self.wf(),
        ensures
            self.spec_recycled().len() <= self.spec_next_id(),
            self.spec_next_id() <= usize::MAX,
            self.spec_generations().len() == self.spec_next_id(),
            self.spec_recycled().no_duplicates(),
            forall|i: int| 0 <= i < self.spec_recycled().len() ==> #[trigger] self.spec_recycled()[i] < self.spec_next_id(),
    {
        lemma_distinct_below(self.recycled_ids@, self.next_id);
    }

    /// Creates a manager that has handed out nothing.
    pub fn new() -> (m: Self)
        ensures
            m.wf(),
            m.spec_next_id() == 0,
            m.spec_generations() == Seq::<u64>::empty(),
            m.spec_recycled() == Seq::<u64>::empty(),
    {
        EntityManager { next_id: 0, generations: Vec::new(), recycled_ids: VecDeque::new(), queued: Vec::new() }
    }

    /// Creates an entity: the oldest recycled index with its current
    /// generation, or else a new index with generation 0. The handle returned
    /// was not live before and is live after.
    pub fn create(&mut self) -> (e: Entity)
        requires
            old(self).wf(),
            old(self).spec_recycled().len() > 0 || old(self).spec_next_id() < usize::MAX,
        ensures
            final(self).wf(),
            !old(self).live(e),
            final(self).live(e),
            final(self).live_count() == old(self).live_count() + 1,
            generations_grow(old(self).spec_generations(), final(self).spec_generations()),
            old(self).spec_recycled().len() > 0 ==> {
                &&& e.spec_id() == old(self).spec_recycled()[0]
                &&& e.spec_generation() == old(self).spec_generations()[e.spec_id() as int]
                &&& final(self).spec_recycled() == old(self).spec_recycled().drop_first()
                &&& final(self).spec_generations() == old(self).spec_generations()
                &&& final(self).spec_next_id() == old(self).spec_next_id()
            },
            old(self).spec_recycled().len() == 0 ==> {
                &&& e.spec_id() == old(self).spec_next_id()
                &&& e.spec_generation() == 0
                &&& final(self).spec_recycled() == old(self).spec_recycled()
                &&& final(self).spec_generations() == old(self).spec_generations().push(0)
                &&& final(self).spec_next_id() == old(self).spec_next_id() + 1
            },
    {
        let ghost r0 = self.recycled_ids@;
        if let Some(recycled_id) = self.recycled_ids.pop_front() {
            assert(r0[0] == recycled_id);
            assert(r0.contains(recycled_id));
            assert(recycled_id < self.next_id);
            let generation = self.generations[recycled_id as usize];
            self.queued.set(recycled_id as usize, false);
            proof {
                let r1 = self.recycled_ids@;
                assert(r1 == r0.drop_first());
                assert forall|i: int| 0 <= i < r1.len() implies #[trigger] r1[i] < self.next_id by {
                    assert(r1[i] == r0[i + 1]);
                }
                assert(r1.no_duplicates()) by {
                    assert forall|a: int, b: int| 0 <= a < r1.len() && 0 <= b < r1.len() && a != b implies r1[a] != r1[b] by {
                        assert(r1[a] == r0[a + 1] && r1[b] == r0[b + 1]);
                    }
                }
                assert(!r1.contains(recycled_id)) by {
                    if r1.contains(recycled_id) {
                        let k = choose|k: int| 0 <= k < r1.len() && r1[k] == recycled_id;
                        assert(r0[k + 1] == r0[0]);
                    }
                }
                assert forall|i: u64| i < self.next_id implies (#[trigger] self.queued@[i as int] <==> r1.contains(i)) by {
                    if i != recycled_id {
                        if r0.contains(i) {
                            let k = choose|k: int| 0 <= k < r0.len() && r0[k] == i;
                            assert(k != 0);
                            assert(r1[k - 1] == i);
                        }
                        if r1.contains(i) {
                            let k = choose|k: int| 0 <= k < r1.len() && r1[k] == i;
                            assert(r0[k + 1] == i);
                        }
                    }
                }
            }
            Entity::new(recycled_id, generation)
        } else {
            let id = self.next_id;
            assert(id < usize::MAX);
            self.next_id = self.next_id + 1;
            self.generations.push(0);
            self.queued.push(false);
            proof {
                assert forall|i: int| 0 <= i < self.recycled_ids@.len() implies #[trigger] self.recycled_ids@[i] < self.next_id by {}
                assert forall|i: u64| i < self.next_id implies (#[trigger] self.queued@[i as int] <==> self.recycled_ids@.contains(i)) by {
                    if i < id {
                        assert(self.queued@[i as int] == old(self).queued@[i as int]);
                    }
                }
            }
            Entity::new(id, 0)
        }
    }

    /// Deletes a live entity: bumps the generation of its index, so that no
    /// handle issued before stays valid, and queues the index for reuse. A
    /// handle that is not live (never handed out, stale, or whose index
    /// already waits for reuse) is ignored.
    pub fn delete(&mut self, entity: Entity)
        requires
            old(self).wf(),
            old(self).live(entity) ==> old(self).spec_generations()[entity.spec_id() as int] < u64::MAX,
        ensures
            final(self).wf(),
            generations_grow(old(self).spec_generations(), final(self).spec_generations()),
            !old(self).live(entity) ==> {
                &&& final(self).spec_next_id() == old(self).spec_next_id()
                &&& final(self).spec_generations() == old(self).spec_generations()
                &&& final(self).spec_recycled() == old(self).spec_recycled()
            },
            old(self).live(entity) ==> {
                &&& final(self).spec_next_id() == old(self).spec_next_id()
                &&& final(self).spec_generations() == old(self).spec_generations().update(
                    entity.spec_id() as int,
                    (old(self).spec_generations()[entity.spec_id() as int] + 1) as u64,
                )
                &&& final(self).spec_recycled() == old(self).spec_recycled().push(entity.spec_id())
                &&& final(self).live_count() == old(self).live_count() - 1
            },
    {
        if !self.is_valid(entity) {
            return;
        }
        let id = entity.id();
        proof {
            assert(self.queued@[id as int] <==> self.recycled_ids@.contains(id));
        }
        if self.queued[id as usize] {
            return;
        }
        let ghost r0 = self.recycled_ids@;
        self.generations.set(id as usize, self.generations[id as usize] + 1);
        self.queued.set(id as usize, true);
        self.recycled_ids.push_back(id);
        proof {
            let r1 = self.recycled_ids@;
            assert(r1 == r0.push(id));
            assert forall|i: int| 0 <= i < r1.len() implies #[trigger] r1[i] < self.next_id by {
                if i < r0.len() {
                    assert(r1[i] == r0[i]);
                }
            }
            assert(r1.no_duplicates()) by {
                assert forall|a: int, b: int| 0 <= a < r1.len() && 0 <= b < r1.len() && a != b implies r1[a] != r1[b] by {
                    if a < r0.len() && b < r0.len() {
                        assert(r1[a] == r0[a] && r1[b] == r0[b]);
                    } else if a < r0.len() {
                        assert(r1[a] == r0[a]);
                        assert(r0.contains(r0[a]));
                    } else if b < r0.len() {
                        assert(r1[b] == r0[b]);
                        assert(r0.contains(r0[b]));
                    }
                }
            }
            assert forall|i: u64| i < self.next_id implies (#[trigger] self.queued@[i as int] <==> r1.contains(i)) by {
                if r0.contains(i) {
                    let k = choose|k: int| 0 <= k < r0.len() && r0[k] == i;
                    assert(r1[k] == i);
                }
                if r1.contains(i) && i != id {
                    let k = choose|k: int| 0 <= k < r1.len() && r1[k] == i;
                    assert(k < r0.len());
                    assert(r0[k] == i);
                }
                if i == id {
                    assert(r1[r0.len() as int] == id);
                }
            }
        }
    }

    /// Whether `entity` is valid: its index was handed out and its generation
    /// is the current one for that index. (A handle whose index waits for
    /// reuse but carries the current generation counts as valid.)
    pub fn is_valid(&self, entity: Entity) -> (r: bool)
        requires
            self.wf(),
        ensures
            r == self.valid_handle(entity),
    {
        let id = entity.id();
        if id >= self.generations.len() as u64 {
            return false;
        }
        entity.generation() == self.generations[id as usize]
    }

    /// The number of live entities: the indices handed out minus those
    /// waiting for reuse.
    pub fn entity_count(&self) -> (r: usize)
        requires
            self.wf(),
        ensures
            r == self.live_count(),
    {
        proof {
            self.lemma_wf_bounds();
        }
        self.next_id as usize - self.recycled_ids.len()
    }
}

/// Generations never go down, and indices are only added.
pub open spec fn generations_grow(before: Seq<u64>, after: Seq<u64>) -> bool {
    &&& before.len() <= after.len()
    &&& forall|i: int| 0 <= i < before.len() ==> before[i] <= #[trigger] after[i]
}

/// Deleting a live entity invalidates it, and every handle on the same index
/// issued before it.
pub proof fn lemma_delete_invalidates(m: EntityManager, m2: EntityManager, e: Entity, other: Entity)
    requires
        m.wf(),
        m.live(e),
        m2.spec_generations() == m.spec_generations().update(
            e.spec_id() as int,
            (m.spec_generations()[e.spec_id() as int] + 1) as u64,
        ),
        m.spec_generations()[e.spec_id() as int] < u64::MAX,
        other.spec_id() == e.spec_id(),
        other.spec_generation() <= e.spec_generation(),
    ensures
        !m2.valid_handle(e),
        !m2.valid_handle(other),
{
}

/// Deleting an entity leaves the validity of every handle on another index
/// as it was.
pub proof fn lemma_delete_keeps_others(m: EntityManager, m2: EntityManager, e: Entity, other: Entity)
    requires
        e.spec_id() < m.spec_generations().len(),
        m2.spec_generations() == m.spec_generations().update(
            e.spec_id() as int,
            (m.spec_generations()[e.spec_id() as int] + 1) as u64,
        ),
        other.spec_id() != e.spec_id(),
    ensures
        m2.valid_handle(other) == m.valid_handle(other),
{
}

/// Once a live entity is deleted, any entity later handed out on its index
/// has a newer generation: `states` runs from the manager just after the
/// deletion through calls that let generations only grow, and `reused`
/// carries the current generation of the index in the last state.
pub proof fn lemma_reuse_has_newer_generation(before: EntityManager, deleted: Entity, states: Seq<EntityManager>, reused: Entity)
    requires
        before.live(deleted),
        states.len() > 0,
        states[0].spec_generations() == before.spec_generations().update(
            deleted.spec_id() as int,
            (before.spec_generations()[deleted.spec_id() as int] + 1) as u64,
        ),
        before.spec_generations()[deleted.spec_id() as int] < u64::MAX,
        forall|i: int| 0 <= i < states.len() - 1 ==> generations_grow(#[trigger] states[i].spec_generations(), states[i + 1].spec_generations()),
        reused.spec_id() == deleted.spec_id(),
        reused.spec_generation() == states.last().spec_generations()[reused.spec_id() as int],
    ensures
        reused.spec_generation() > deleted.spec_generation(),
    decreases states.len(),
{
    let id = deleted.spec_id() as int;
    if states.len() == 1 {
    } else {
        let init = states.drop_last();
        assert forall|i: int| 0 <= i < init.len() - 1 implies generations_grow(#[trigger] init[i].spec_generations(), init[i + 1].spec_generations()) by {
            assert(init[i] == states[i] && init[i + 1] == states[i + 1]);
        }
        let n = states.len() - 1;
        assert(generations_grow(states[n - 1].spec_generations(), states[n].spec_generations()));
        lemma_generation_floor(before, deleted, init);
        assert(init.last() == states[n - 1]);
    }
}

proof fn lemma_generation_floor(before: EntityManager, deleted: Entity, states: Seq<EntityManager>)
    requires
        before.live(deleted),
        states.len() > 0,
        states[0].spec_generations() == before.spec_generations().update(
            deleted.spec_id() as int,
            (before.spec_generations()[deleted.spec_id() as int] + 1) as u64,
        ),
        before.spec_generations()[deleted.spec_id() as int] < u64::MAX,
        forall|i: int| 0 <= i < states.len() - 1 ==> generations_grow(#[trigger] states[i].spec_generations(), states[i + 1].spec_generations()),
    ensures
        deleted.spec_id() < states.last().spec_generations().len(),
        states.last().spec_generations()[deleted.spec_id() as int] > deleted.spec_generation(),
    decreases states.len(),
{
    if states.len() > 1 {
        let init = states.drop_last();
        assert forall|i: int| 0 <= i < init.len() - 1 implies generations_grow(#[trigger] init[i].spec_generations(), init[i + 1].spec_generations()) by {
            assert(init[i] == states[i] && init[i + 1] == states[i + 1]);
        }
        lemma_generation_floor(before, deleted, init);
        let n = states.len() - 1;
        assert(init.last() == states[n - 1]);
        assert(generations_grow(states[n - 1].spec_generations(), states[n].spec_generations()));
        assert(states[n - 1].spec_generations()[deleted.spec_id() as int] <= states[n].spec_generations()[deleted.spec_id() as int]);
    }
}

} // verus!
