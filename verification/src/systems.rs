//! The behaviour that runs once per tick: joins over storages, the
//! integrator and the logger.

use crate::component::{ComponentKind, Position, Velocity};
use crate::entity::Entity;
use crate::storage::Storage;
use vstd::prelude::*;

verus! {

/// The entities of `order` that `others` holds too, in the order of `order`.
pub open spec fn joined(order: Seq<Entity>, others: Set<Entity>) -> Seq<Entity> {
    order.filter(|e: Entity| others.contains(e))
}

/// The positions after one step of length `dt`: an entity that has a
/// velocity moves, every other one stays.
pub open spec fn integrated(
    positions: Map<Entity, Position>,
    velocities: Map<Entity, Velocity>,
    dt: i64,
) -> Map<Entity, Position> {
    Map::new(
        |e: Entity| positions.contains_key(e),
        |e: Entity|
            if velocities.contains_key(e) {
                positions[e].moved(velocities[e], dt)
            } else {
                positions[e]
            },
    )
}

/// What the logger reports of one entity.
#[derive(Clone, Copy, Debug, PartialEq, Eq, Structural)]
pub struct LogRecord {
    pub entity: Entity,
    pub position: Position,
}

/// One record for each entity of `order`, in that order, with its position.
pub open spec fn records(order: Seq<Entity>, positions: Map<Entity, Position>) -> Seq<LogRecord> {
    Seq::new(order.len(), |i: int| LogRecord { entity: order[i], position: positions[order[i]] })
}

/// A join of a sequence without repeats has no repeats, and holds exactly
/// the elements of the sequence that the set holds.
pub proof fn lemma_joined_members(order: Seq<Entity>, others: Set<Entity>)
    requires
        order.no_duplicates(),
    ensures
        joined(order, others).no_duplicates(),
        forall|e: Entity| #[trigger]
            joined(order, others).contains(e) <==> order.contains(e) && others.contains(e),
    decreases order.len(),
{
    reveal(Seq::filter);
    let all = joined(order, others);
    if order.len() > 0 {
        let front = order.drop_last();
        let last = order.last();
        let inner = joined(front, others);
        lemma_joined_members(front, others);
        assert(!front.contains(last)) by {
            if front.contains(last) {
                let j = front.index_of(last);
                assert(0 <= j < front.len() && front[j] == last);
                assert(order[j] == order[order.len() - 1]);
            }
        }
        assert forall|e: Entity| #[trigger] all.contains(e) <==> order.contains(e)
            && others.contains(e) by {
            if all.contains(e) {
                let j = all.index_of(e);
                assert(0 <= j < all.len() && all[j] == e);
                if j < inner.len() {
                    assert(inner[j] == e);
                    assert(inner.contains(e));
                    let k = front.index_of(e);
                    assert(0 <= k < front.len() && front[k] == e);
                    assert(order[k] == e);
                } else {
                    assert(e == last);
                    assert(order[order.len() - 1] == e);
                }
            }
            if order.contains(e) && others.contains(e) {
                let k = order.index_of(e);
                assert(0 <= k < order.len() && order[k] == e);
                if k < front.len() {
                    assert(front[k] == e);
                    assert(front.contains(e));
                    let j = inner.index_of(e);
                    assert(0 <= j < inner.len() && inner[j] == e);
                    assert(all[j] == e);
                } else {
                    assert(all[all.len() - 1] == e);
                }
            }
        }
        assert forall|i: int, j: int| 0 <= i < all.len() && 0 <= j < all.len() && i != j implies all[i]
            != all[j] by {
            if i < inner.len() && j < inner.len() {
                assert(inner[i] != inner[j]);
            } else if i < inner.len() {
                assert(inner.contains(inner[i]));
            } else {
                assert(inner.contains(inner[j]));
            }
        }
    }
}

/// A join yields exactly the entities present in both storages, each once:
/// as many as the two key sets have in common.
pub proof fn lemma_join_is_intersection<A, B>(left: Storage<A>, right: Storage<B>)
    requires
        left.wf(),
        right.wf(),
    ensures
        joined(left.order(), right@.dom()).no_duplicates(),
        joined(left.order(), right@.dom()).to_set() == left@.dom().intersect(right@.dom()),
        joined(left.order(), right@.dom()).len() == left@.dom().intersect(right@.dom()).len(),
{
    let both = joined(left.order(), right@.dom());
    left.lemma_order_is_domain();
    right.lemma_order_is_domain();
    lemma_joined_members(left.order(), right@.dom());
    assert(both.to_set() =~= left@.dom().intersect(right@.dom()));
    both.unique_seq_to_set();
}

/// A join does not depend on the side it starts from but for the order:
/// both ways hold the same entities.
pub proof fn lemma_join_symmetric<A, B>(left: Storage<A>, right: Storage<B>)
    requires
        left.wf(),
        right.wf(),
    ensures
        joined(left.order(), right@.dom()).to_set() == joined(
            right.order(),
            left@.dom(),
        ).to_set(),
        joined(left.order(), right@.dom()).len() == joined(right.order(), left@.dom()).len(),
{
    lemma_join_is_intersection(left, right);
    lemma_join_is_intersection(right, left);
    assert(left@.dom().intersect(right@.dom()) =~= right@.dom().intersect(left@.dom()));
}

/// The logger reports every entity that has a position exactly once.
pub proof fn lemma_one_record_per_entity(positions: Storage<Position>)
    requires
        positions.wf(),
    ensures
        records(positions.order(), positions@).len() == positions@.dom().len(),
        forall|i: int, j: int|
            0 <= i < j < positions.order().len() ==> (#[trigger] records(
                positions.order(),
                positions@,
            )[i]).entity != (#[trigger] records(positions.order(), positions@)[j]).entity,
        forall|e: Entity| #[trigger]
            positions@.contains_key(e) ==> exists|i: int|
                0 <= i < positions.order().len() && #[trigger] records(
                    positions.order(),
                    positions@,
                )[i] == (LogRecord { entity: e, position: positions@[e] }),
        forall|i: int|
            0 <= i < positions.order().len() ==> positions@.contains_key(
                (#[trigger] records(positions.order(), positions@)[i]).entity,
            ),
{
    let order = positions.order();
    let recs = records(order, positions@);
    positions.lemma_order_is_domain();
    assert forall|e: Entity| #[trigger] positions@.contains_key(e) implies exists|i: int|
        0 <= i < order.len() && #[trigger] recs[i] == (LogRecord {
            entity: e,
            position: positions@[e],
        }) by {
        assert(order.contains(e));
        let i = order.index_of(e);
        assert(0 <= i < order.len() && order[i] == e);
        assert(recs[i] == (LogRecord { entity: e, position: positions@[e] }));
    }
    assert forall|i: int| 0 <= i < order.len() implies positions@.contains_key(
        (#[trigger] recs[i]).entity,
    ) by {
        assert(order.contains(order[i]));
    }
}

/// The entities that hold a component in both storages, in the order of
/// the left one.
pub fn join<A, B>(left: &Storage<A>, right: &Storage<B>) -> (both: Vec<Entity>)
    requires
        left.wf(),
        right.wf(),
    ensures
        both@ == joined(left.order(), right@.dom()),
{
    let mut both: Vec<Entity> = Vec::new();
    let n: usize = left.len();
    let mut i: usize = 0;
    proof {
        reveal(Seq::filter);
        assert(left.order().take(0) =~= Seq::<Entity>::empty());
    }
    while i < n
        invariant
            left.wf(),
            right.wf(),
            n == left.order().len(),
            i <= n,
            both@ == joined(left.order().take(i as int), right@.dom()),
        decreases n - i,
    {
        let entity = left.entity_at(i);
        proof {
            reveal(Seq::filter);
            let next = left.order().take(i + 1);
            assert(next.drop_last() =~= left.order().take(i as int));
            assert(next.last() == entity);
        }
        if right.contains(entity) {
            both.push(entity);
        }
        i += 1;
    }
    proof {
        assert(left.order().take(n as int) =~= left.order());
    }
    both
}

/// Moves every entity that has both a velocity and a position by one step
/// of length `dt`. Entities without a velocity keep their position, and
/// no entity gains or loses a position.
pub fn integrate(velocities: &Storage<Velocity>, positions: &mut Storage<Position>, dt: i64)
    requires
        velocities.wf(),
        old(positions).wf(),
    ensures
        final(positions).wf(),
        final(positions).order() == old(positions).order(),
        final(positions)@ == integrated(old(positions)@, velocities@, dt),
{
    let ghost before = positions@;
    let ghost order = positions.order();
    let n: usize = positions.len();
    let mut i: usize = 0;
    proof {
        positions.lemma_order_is_domain();
    }
    while i < n
        invariant
            velocities.wf(),
            positions.wf(),
            positions.order() == order,
            order.no_duplicates(),
            n == order.len(),
            i <= n,
            positions@.dom() == before.dom(),
            forall|e: Entity| order.contains(e) <==> #[trigger] before.contains_key(e),
            forall|j: int|
                0 <= j < i ==> positions@[#[trigger] order[j]] == integrated(
                    before,
                    velocities@,
                    dt,
                )[order[j]],
            forall|j: int| i <= j < n ==> positions@[#[trigger] order[j]] == before[order[j]],
        decreases n - i,
    {
        let entity = positions.entity_at(i);
        proof {
            assert(order.contains(order[i as int]));
        }
        match velocities.get(entity) {
            Some(velocity) => {
                let here = *positions.value_at(i);
                let ghost earlier = positions@;
                positions.set_at(i, here.step(velocity, dt));
                proof {
                    assert(positions@.dom() =~= before.dom());
                    assert forall|j: int| 0 <= j < n && j != i implies positions@[#[trigger] order[j]]
                        == earlier[order[j]] by {
                        assert(order[j] != order[i as int]);
                    }
                }
            },
            None => {},
        }
        i += 1;
    }
    proof {
        let after = integrated(before, velocities@, dt);
        assert forall|e: Entity| before.contains_key(e) implies #[trigger] positions@[e]
            == after[e] by {
            assert(order.contains(e));
            let j = order.index_of(e);
            assert(0 <= j < order.len() && order[j] == e);
        }
        assert(positions@ =~= after);
    }
}

/// Appends to the sink one record for every entity that has a position, in
/// the order of the storage. The storage is not changed.
pub fn log_positions(positions: &Storage<Position>, sink: &mut Vec<LogRecord>)
    requires
        positions.wf(),
    ensures
        final(sink)@ == old(sink)@ + records(positions.order(), positions@),
{
    let ghost start = sink@;
    let n: usize = positions.len();
    let mut i: usize = 0;
    while i < n
        invariant
            positions.wf(),
            n == positions.order().len(),
            i <= n,
            sink@ == start + records(positions.order(), positions@).take(i as int),
        decreases n - i,
    {
        let record = LogRecord { entity: positions.entity_at(i), position: *positions.value_at(i) };
        sink.push(record);
        proof {
            let all = records(positions.order(), positions@);
            assert(all.take(i + 1) =~= all.take(i as int).push(all[i as int]));
            assert(sink@ =~= start + all.take(i + 1));
        }
        i += 1;
    }
    proof {
        let all = records(positions.order(), positions@);
        assert(all.take(n as int) =~= all);
    }
}

/// A unit of behaviour that the scheduler runs once per tick.
#[derive(Clone, Copy, Debug, PartialEq, Eq, Structural)]
pub enum System {
    /// Reports the position of every entity that has one.
    Logger,
    /// Moves every entity that has a velocity and a position by one step
    /// of length `dt`.
    Integrator { dt: i64 },
}

impl System {
    /// The kinds of component that the system reads.
    pub open spec fn spec_reads(&self) -> Seq<ComponentKind> {
        match *self {
            System::Logger => seq![ComponentKind::Position],
            System::Integrator { dt } => seq![ComponentKind::Velocity],
        }
    }

    /// The kinds of component that the system writes.
    pub open spec fn spec_writes(&self) -> Seq<ComponentKind> {
        match *self {
            System::Logger => Seq::<ComponentKind>::empty(),
            System::Integrator { dt } => seq![ComponentKind::Position],
        }
    }

    /// Every kind that the system needs, reads first.
    pub open spec fn spec_needs(&self) -> Seq<ComponentKind> {
        self.spec_reads() + self.spec_writes()
    }

    /// The kinds of component that the system reads.
    pub fn reads(&self) -> (kinds: Vec<ComponentKind>)
        ensures
            kinds@ == self.spec_reads(),
    {
        let mut kinds: Vec<ComponentKind> = Vec::new();
        match self {
            System::Logger => kinds.push(ComponentKind::Position),
            System::Integrator { dt: _ } => kinds.push(ComponentKind::Velocity),
        }
        assert(kinds@ =~= self.spec_reads());
        kinds
    }

    /// The kinds of component that the system writes.
    pub fn writes(&self) -> (kinds: Vec<ComponentKind>)
        ensures
            kinds@ == self.spec_writes(),
    {
        let mut kinds: Vec<ComponentKind> = Vec::new();
        match self {
            System::Logger => {},
            System::Integrator { dt: _ } => kinds.push(ComponentKind::Position),
        }
        assert(kinds@ =~= self.spec_writes());
        kinds
    }

    /// Every kind that the system needs, reads first.
    pub fn needs(&self) -> (kinds: Vec<ComponentKind>)
        ensures
            kinds@ == self.spec_needs(),
    {
        let mut kinds = self.reads();
        let mut written = self.writes();
        kinds.append(&mut written);
        kinds
    }
}

} // verus!
