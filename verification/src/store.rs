//! The world store: the single owner of the authoritative world.  All
//! writes are funnelled through a bounded, ordered mutation queue and
//! applied by one consumer, strictly in arrival order; reads never
//! contend with writers for a lock.

use vstd::prelude::*;

use crate::text::ascii_chars;
use crate::world::{
    lemma_move_own_entry, lemma_move_preserves_others, lookup, spec_add, spec_clamp, spec_move,
    spec_remove, update_bytes, world_wf, Player, World,
};

verus! {

/// One write to the world, carried through the mutation queue.
#[derive(Clone, Copy, Debug, PartialEq, Eq, Structural)]
pub enum Mutation {
    AddPlayer(u32),
    MovePlayer(u32, i32, i32),
    RemovePlayer(u32),
}

/// Why the store refused a write.
#[derive(Clone, Copy, Debug, PartialEq, Eq, Structural)]
pub enum StoreError {
    /// The mutation queue is full; the write was rejected, not dropped.
    QueueSaturated,
}

/// The world a single mutation leads to.
pub open spec fn apply_mutation(s: Seq<Player>, m: Mutation) -> Seq<Player> {
    match m {
        Mutation::AddPlayer(id) => spec_add(s, id),
        Mutation::MovePlayer(id, dx, dz) => spec_move(s, id, dx as int, dz as int),
        Mutation::RemovePlayer(id) => spec_remove(s, id),
    }
}

/// The world a queue of mutations leads to, applied oldest first, each
/// exactly once.
pub open spec fn apply_all(s: Seq<Player>, q: Seq<Mutation>) -> Seq<Player>
    decreases q.len(),
{
    if q.len() == 0 {
        s
    } else {
        apply_all(apply_mutation(s, q[0]), q.drop_first())
    }
}

/// Serialization law: draining a queue assembled from two batches is
/// draining the first batch, then the second — every mutation is
/// applied exactly once, in arrival order.
pub proof fn lemma_apply_all_concat(s: Seq<Player>, q1: Seq<Mutation>, q2: Seq<Mutation>)
    ensures
        apply_all(s, q1 + q2) == apply_all(apply_all(s, q1), q2),
    decreases q1.len(),
{
    if q1.len() == 0 {
        assert(q1 + q2 =~= q2);
    } else {
        assert((q1 + q2)[0] == q1[0]);
        assert((q1 + q2).drop_first() =~= q1.drop_first() + q2);
        lemma_apply_all_concat(apply_mutation(s, q1[0]), q1.drop_first(), q2);
    }
}

/// Moves by other players never touch this player's entry.
pub proof fn lemma_moves_preserve(s: Seq<Player>, q: Seq<Mutation>, id: u32)
    requires
        forall|i: int| 0 <= i < q.len() ==> (#[trigger] q[i]) is MovePlayer,
        forall|i: int| 0 <= i < q.len() ==> (#[trigger] q[i])->MovePlayer_0 != id,
    ensures
        lookup(apply_all(s, q), id) == lookup(s, id),
    decreases q.len(),
{
    if q.len() > 0 {
        let m = q[0];
        lemma_move_preserves_others(s, m->MovePlayer_0, m->MovePlayer_1 as int, m->MovePlayer_2 as int, id);
        assert(forall|i: int|
            0 <= i < q.drop_first().len() ==> q.drop_first()[i] == q[i + 1]);
        lemma_moves_preserve(apply_mutation(s, m), q.drop_first(), id);
    }
}

/// No lost updates, no double application: when every queued mutation
/// is a move and each connection moved a distinct player, every
/// player's final entry is its own move applied to the starting world
/// exactly once, whatever serial order the queue recorded.
pub proof fn lemma_each_move_applied_once(s: Seq<Player>, q: Seq<Mutation>, k: int)
    requires
        forall|i: int| 0 <= i < q.len() ==> (#[trigger] q[i]) is MovePlayer,
        forall|i: int, j: int|
            0 <= i < j < q.len() ==> q[i]->MovePlayer_0 != q[j]->MovePlayer_0,
        0 <= k < q.len(),
    ensures
        lookup(apply_all(s, q), q[k]->MovePlayer_0) == lookup(
            spec_move(s, q[k]->MovePlayer_0, q[k]->MovePlayer_1 as int, q[k]->MovePlayer_2 as int),
            q[k]->MovePlayer_0,
        ),
    decreases q.len(),
{
    let m = q[0];
    let rest = q.drop_first();
    assert(forall|i: int| 0 <= i < rest.len() ==> rest[i] == q[i + 1]);
    if k == 0 {
        let id = m->MovePlayer_0;
        lemma_moves_preserve(apply_mutation(s, m), rest, id);
    } else {
        let id = q[k]->MovePlayer_0;
        lemma_move_preserves_others(s, m->MovePlayer_0, m->MovePlayer_1 as int, m->MovePlayer_2 as int, id);
        lemma_each_move_applied_once(apply_mutation(s, m), rest, k - 1);
        let s1 = apply_mutation(s, m);
        lemma_move_own_entry(s, id, q[k]->MovePlayer_1 as int, q[k]->MovePlayer_2 as int);
        lemma_move_own_entry(s1, id, q[k]->MovePlayer_1 as int, q[k]->MovePlayer_2 as int);
    }
}

/// The store: the world, and the bounded queue of writes not yet
/// applied.  Writers enqueue; one consumer drains in arrival order.
pub struct WorldInterface {
    world: World,
    queue: std::collections::VecDeque<Mutation>,
    capacity: usize,
}

impl WorldInterface {
    /// The committed world contents.
    pub closed spec fn world_view(&self) -> Seq<Player> {
        self.world@
    }

    /// The writes accepted but not yet applied, oldest first.
    pub closed spec fn queue_view(&self) -> Seq<Mutation> {
        self.queue@
    }

    /// The fixed queue bound.
    pub closed spec fn spec_capacity(&self) -> int {
        self.capacity as int
    }

    pub open spec fn wf(&self) -> bool {
        &&& world_wf(self.world_view())
        &&& self.queue_view().len() <= self.spec_capacity()
    }

    /// Takes sole ownership of the world; writes pass through the
    /// queue from now on.
    pub fn new(world: World, capacity: usize) -> (r: Self)
        requires
            world.wf(),
        ensures
            r.wf(),
            r.world_view() == world@,
            r.queue_view() == Seq::<Mutation>::empty(),
            r.spec_capacity() == capacity,
    {
        WorldInterface { world, queue: std::collections::VecDeque::new(), capacity }
    }

    /// Accepts one write, or rejects it with an explicit signal when
    /// the queue is full — never a silent drop, never a panic.
    pub fn enqueue(&mut self, m: Mutation) -> (r: Result<(), StoreError>)
        requires
            old(self).wf(),
        ensures
            final(self).wf(),
            final(self).world_view() == old(self).world_view(),
            final(self).spec_capacity() == old(self).spec_capacity(),
            r is Ok <==> old(self).queue_view().len() < old(self).spec_capacity(),
            r is Ok ==> final(self).queue_view() == old(self).queue_view().push(m),
            r matches Err(e) ==> e == StoreError::QueueSaturated && final(self).queue_view()
                == old(self).queue_view(),
    {
        if self.queue.len() < self.capacity {
            self.queue.push_back(m);
            Ok(())
        } else {
            Err(StoreError::QueueSaturated)
        }
    }

    /// Enqueues the creation of a player.
    pub fn add_player(&mut self, id: u32) -> (r: Result<(), StoreError>)
        requires
            old(self).wf(),
        ensures
            final(self).wf(),
            final(self).world_view() == old(self).world_view(),
            final(self).spec_capacity() == old(self).spec_capacity(),
            r is Ok <==> old(self).queue_view().len() < old(self).spec_capacity(),
            r is Ok ==> final(self).queue_view() == old(self).queue_view().push(
                Mutation::AddPlayer(id),
            ),
            r matches Err(e) ==> e == StoreError::QueueSaturated && final(self).queue_view()
                == old(self).queue_view(),
    {
        self.enqueue(Mutation::AddPlayer(id))
    }

    /// Enqueues a move.
    pub fn move_player(&mut self, id: u32, dx: i32, dz: i32) -> (r: Result<(), StoreError>)
        requires
            old(self).wf(),
        ensures
            final(self).wf(),
            final(self).world_view() == old(self).world_view(),
            final(self).spec_capacity() == old(self).spec_capacity(),
            r is Ok <==> old(self).queue_view().len() < old(self).spec_capacity(),
            r is Ok ==> final(self).queue_view() == old(self).queue_view().push(
                Mutation::MovePlayer(id, dx, dz),
            ),
            r matches Err(e) ==> e == StoreError::QueueSaturated && final(self).queue_view()
                == old(self).queue_view(),
    {
        self.enqueue(Mutation::MovePlayer(id, dx, dz))
    }

    /// Enqueues the removal of a player.
    pub fn remove_player(&mut self, id: u32) -> (r: Result<(), StoreError>)
        requires
            old(self).wf(),
        ensures
            final(self).wf(),
            final(self).world_view() == old(self).world_view(),
            final(self).spec_capacity() == old(self).spec_capacity(),
            r is Ok <==> old(self).queue_view().len() < old(self).spec_capacity(),
            r is Ok ==> final(self).queue_view() == old(self).queue_view().push(
                Mutation::RemovePlayer(id),
            ),
            r matches Err(e) ==> e == StoreError::QueueSaturated && final(self).queue_view()
                == old(self).queue_view(),
    {
        self.enqueue(Mutation::RemovePlayer(id))
    }

    /// Applies every queued mutation to the world, oldest first, each
    /// exactly once.
    pub fn drain(&mut self)
        requires
            old(self).wf(),
        ensures
            final(self).wf(),
            final(self).spec_capacity() == old(self).spec_capacity(),
            final(self).queue_view() == Seq::<Mutation>::empty(),
            final(self).world_view() == apply_all(old(self).world_view(), old(self).queue_view()),
    {
        loop
            invariant
                self.wf(),
                self.spec_capacity() == old(self).spec_capacity(),
                apply_all(self.world_view(), self.queue_view()) == apply_all(
                    old(self).world_view(),
                    old(self).queue_view(),
                ),
            decreases self.queue_view().len(),
        {
            match self.queue.pop_front() {
                Some(m) => {
                    match m {
                        Mutation::AddPlayer(id) => self.world.add_player(id),
                        Mutation::MovePlayer(id, dx, dz) => self.world.move_player(id, dx, dz),
                        Mutation::RemovePlayer(id) => self.world.remove_player(id),
                    }
                },
                None => {
                    return ;
                },
            }
        }
    }

    /// Renders the latest committed state, exactly as the world does.
    pub fn update_message(&self) -> (r: String)
        requires
            self.wf(),
        ensures
            r@ == ascii_chars(update_bytes(self.world_view())),
    {
        self.world.update_message()
    }
}

} // verus!
