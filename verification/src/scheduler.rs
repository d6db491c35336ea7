//! The scheduler: an ordered list of systems that runs once per tick.

use crate::component::{displacement, lemma_default_displacement, ComponentKind, DEFAULT_DT};
use crate::entity::Entity;
use crate::systems::{records, LogRecord, System};
use crate::world::{ConfigurationError, World, WorldModel};
use vstd::prelude::*;

verus! {

/// The kinds that the systems need, system by system in list order.
pub open spec fn all_needs(systems: Seq<System>) -> Seq<ComponentKind>
    decreases systems.len(),
{
    if systems.len() == 0 {
        Seq::empty()
    } else {
        all_needs(systems.drop_last()) + systems.last().spec_needs()
    }
}

/// The first of the kinds that is not registered, if there is one.
pub open spec fn first_missing(kinds: Seq<ComponentKind>, registered: Set<ComponentKind>) -> Option<
    ComponentKind,
>
    decreases kinds.len(),
{
    if kinds.len() == 0 {
        None
    } else {
        match first_missing(kinds.drop_last(), registered) {
            Some(kind) => Some(kind),
            None => if registered.contains(kinds.last()) {
                None
            } else {
                Some(kinds.last())
            },
        }
    }
}

/// The world after the systems have run once each, in list order.
pub open spec fn after_tick(world: WorldModel, systems: Seq<System>) -> WorldModel
    decreases systems.len(),
{
    if systems.len() == 0 {
        world
    } else {
        after_tick(world, systems.drop_last()).ran(systems.last())
    }
}

/// What the systems report while they run once each, in list order.
pub open spec fn tick_report(world: WorldModel, systems: Seq<System>) -> Seq<LogRecord>
    decreases systems.len(),
{
    if systems.len() == 0 {
        Seq::empty()
    } else {
        tick_report(world, systems.drop_last()) + after_tick(world, systems.drop_last()).reported(
            systems.last(),
        )
    }
}

/// The world after `n` ticks.
pub open spec fn after_ticks(world: WorldModel, systems: Seq<System>, n: nat) -> WorldModel
    decreases n,
{
    if n == 0 {
        world
    } else {
        after_tick(after_ticks(world, systems, (n - 1) as nat), systems)
    }
}

/// The first missing kind of two lists in a row is that of the first list,
/// or else that of the second.
pub proof fn lemma_first_missing_concat(
    a: Seq<ComponentKind>,
    b: Seq<ComponentKind>,
    registered: Set<ComponentKind>,
)
    ensures
        first_missing(a + b, registered) == match first_missing(a, registered) {
            Some(kind) => Some(kind),
            None => first_missing(b, registered),
        },
    decreases b.len(),
{
    if b.len() == 0 {
        assert(a + b =~= a);
    } else {
        assert((a + b).drop_last() =~= a + b.drop_last());
        assert((a + b).last() == b.last());
        lemma_first_missing_concat(a, b.drop_last(), registered);
    }
}

/// A kind that is missing among the first `i` systems is missing among all.
pub proof fn lemma_first_missing_stays(
    systems: Seq<System>,
    i: int,
    registered: Set<ComponentKind>,
)
    requires
        0 <= i <= systems.len(),
        first_missing(all_needs(systems.take(i)), registered).is_some(),
    ensures
        first_missing(all_needs(systems), registered) == first_missing(
            all_needs(systems.take(i)),
            registered,
        ),
    decreases systems.len(),
{
    if i == systems.len() {
        assert(systems.take(i) =~= systems);
    } else {
        assert(systems.drop_last().take(i) =~= systems.take(i));
        lemma_first_missing_stays(systems.drop_last(), i, registered);
        lemma_first_missing_concat(
            all_needs(systems.drop_last()),
            systems.last().spec_needs(),
            registered,
        );
    }
}

/// What `first_missing` finds is the kind at the least index that is not
/// registered; it finds nothing only if every kind is registered.
pub proof fn lemma_first_missing_is_first(kinds: Seq<ComponentKind>, registered: Set<ComponentKind>)
    ensures
        match first_missing(kinds, registered) {
            Some(kind) => exists|i: int|
                0 <= i < kinds.len() && #[trigger] kinds[i] == kind && !registered.contains(kind)
                    && forall|j: int| 0 <= j < i ==> registered.contains(#[trigger] kinds[j]),
            None => forall|j: int| 0 <= j < kinds.len() ==> registered.contains(#[trigger] kinds[j]),
        },
    decreases kinds.len(),
{
    if kinds.len() > 0 {
        let front = kinds.drop_last();
        lemma_first_missing_is_first(front, registered);
        match first_missing(front, registered) {
            Some(kind) => {
                let i = choose|i: int|
                    0 <= i < front.len() && #[trigger] front[i] == kind && !registered.contains(kind)
                        && forall|j: int| 0 <= j < i ==> registered.contains(#[trigger] front[j]);
                assert(kinds[i] == kind);
                assert forall|j: int| 0 <= j < i implies registered.contains(#[trigger] kinds[j]) by {
                    assert(front[j] == kinds[j]);
                }
            },
            None => {
                assert forall|j: int| 0 <= j < front.len() implies registered.contains(
                    #[trigger] kinds[j],
                ) by {
                    assert(front[j] == kinds[j]);
                }
                if !registered.contains(kinds.last()) {
                    let i = kinds.len() - 1;
                    assert(kinds[i] == kinds.last());
                }
            },
        }
    }
}

/// The systems of the demo: the logger, then the
/// integrator with the default time step.
pub open spec fn demo_systems() -> Seq<System> {
    seq![System::Logger, System::Integrator { dt: DEFAULT_DT }]
}

/// A tick creates and destroys nothing: the live entities, the registered
/// kinds, the velocities and the entities that hold a position are the same
/// before and after, and the world stays consistent.
pub proof fn lemma_after_tick_keeps(world: WorldModel, systems: Seq<System>)
    ensures
        after_tick(world, systems).next_id == world.next_id,
        after_tick(world, systems).alive == world.alive,
        after_tick(world, systems).registered == world.registered,
        after_tick(world, systems).velocities == world.velocities,
        after_tick(world, systems).velocity_order == world.velocity_order,
        after_tick(world, systems).position_order == world.position_order,
        after_tick(world, systems).positions.dom() == world.positions.dom(),
        world.consistent() ==> after_tick(world, systems).consistent(),
    decreases systems.len(),
{
    if systems.len() > 0 {
        lemma_after_tick_keeps(world, systems.drop_last());
        after_tick(world, systems.drop_last()).lemma_ran_keeps(systems.last());
    }
}

/// Any number of ticks creates and destroys nothing.
pub proof fn lemma_after_ticks_keeps(world: WorldModel, systems: Seq<System>, n: nat)
    ensures
        after_ticks(world, systems, n).next_id == world.next_id,
        after_ticks(world, systems, n).alive == world.alive,
        after_ticks(world, systems, n).registered == world.registered,
        after_ticks(world, systems, n).velocities == world.velocities,
        after_ticks(world, systems, n).velocity_order == world.velocity_order,
        after_ticks(world, systems, n).position_order == world.position_order,
        after_ticks(world, systems, n).positions.dom() == world.positions.dom(),
        world.consistent() ==> after_ticks(world, systems, n).consistent(),
    decreases n,
{
    if n > 0 {
        lemma_after_ticks_keeps(world, systems, (n - 1) as nat);
        lemma_after_tick_keeps(after_ticks(world, systems, (n - 1) as nat), systems);
    }
}

/// One run of the integrator moves an entity that has a position and a
/// velocity by one step of its velocity.
pub proof fn lemma_integrator_moves(world: WorldModel, dt: i64, entity: Entity)
    requires
        world.positions.contains_key(entity),
        world.velocities.contains_key(entity),
    ensures
        world.ran(System::Integrator { dt }).positions.contains_key(entity),
        world.ran(System::Integrator { dt }).positions[entity] == world.positions[entity].moved(
            world.velocities[entity],
            dt,
        ),
{
}

/// With the default time step, and away from the ends of the `i64` range,
/// one run of the integrator adds to each coordinate of an entity that has
/// a position and a velocity the velocity times the time step.
pub proof fn lemma_default_step(world: WorldModel, entity: Entity)
    requires
        world.positions.contains_key(entity),
        world.velocities.contains_key(entity),
        i64::MIN <= world.positions[entity].x + displacement(
            world.velocities[entity].x as int,
            DEFAULT_DT as int,
        ) <= i64::MAX,
        i64::MIN <= world.positions[entity].y + displacement(
            world.velocities[entity].y as int,
            DEFAULT_DT as int,
        ) <= i64::MAX,
    ensures
        world.ran(System::Integrator { dt: DEFAULT_DT }).positions[entity].x
            == world.positions[entity].x + displacement(
            world.velocities[entity].x as int,
            DEFAULT_DT as int,
        ),
        world.ran(System::Integrator { dt: DEFAULT_DT }).positions[entity].y
            == world.positions[entity].y + displacement(
            world.velocities[entity].y as int,
            DEFAULT_DT as int,
        ),
{
}

/// With the default time step a velocity whose coordinates are multiples
/// of twenty thousandths moves an entity by exactly a twentieth of itself:
/// the position plus the velocity times 0.05. Positions that would leave
/// the `i64` range are left out.
pub proof fn lemma_default_step_exact(world: WorldModel, entity: Entity)
    requires
        world.positions.contains_key(entity),
        world.velocities.contains_key(entity),
        world.velocities[entity].x % 20 == 0,
        world.velocities[entity].y % 20 == 0,
        i64::MIN <= world.positions[entity].x + world.velocities[entity].x / 20 <= i64::MAX,
        i64::MIN <= world.positions[entity].y + world.velocities[entity].y / 20 <= i64::MAX,
    ensures
        20 * (world.ran(System::Integrator { dt: DEFAULT_DT }).positions[entity].x
            - world.positions[entity].x) == world.velocities[entity].x,
        20 * (world.ran(System::Integrator { dt: DEFAULT_DT }).positions[entity].y
            - world.positions[entity].y) == world.velocities[entity].y,
{
    let v = world.velocities[entity];
    lemma_default_displacement(v.x / 20);
    lemma_default_displacement(v.y / 20);
    assert(20 * (v.x / 20) == v.x);
    assert(20 * (v.y / 20) == v.y);
}

/// No system moves an entity that has a position and no velocity.
pub proof fn lemma_ran_still(world: WorldModel, system: System, entity: Entity)
    requires
        world.positions.contains_key(entity),
        !world.velocities.contains_key(entity),
    ensures
        world.ran(system).positions.contains_key(entity),
        world.ran(system).positions[entity] == world.positions[entity],
{
}

/// A tick does not move an entity that has a position and no velocity,
/// whatever the systems are.
pub proof fn lemma_tick_still(world: WorldModel, systems: Seq<System>, entity: Entity)
    requires
        world.positions.contains_key(entity),
        !world.velocities.contains_key(entity),
    ensures
        after_tick(world, systems).positions.contains_key(entity),
        after_tick(world, systems).positions[entity] == world.positions[entity],
    decreases systems.len(),
{
    if systems.len() > 0 {
        lemma_tick_still(world, systems.drop_last(), entity);
        lemma_after_tick_keeps(world, systems.drop_last());
        lemma_ran_still(after_tick(world, systems.drop_last()), systems.last(), entity);
    }
}

/// An entity that has a position and no velocity is where it was after any
/// number of ticks.
pub proof fn lemma_still_without_velocity(
    world: WorldModel,
    systems: Seq<System>,
    n: nat,
    entity: Entity,
)
    requires
        world.positions.contains_key(entity),
        !world.velocities.contains_key(entity),
    ensures
        after_ticks(world, systems, n).positions.contains_key(entity),
        after_ticks(world, systems, n).positions[entity] == world.positions[entity],
    decreases n,
{
    if n > 0 {
        let earlier = after_ticks(world, systems, (n - 1) as nat);
        lemma_still_without_velocity(world, systems, (n - 1) as nat, entity);
        lemma_after_ticks_keeps(world, systems, (n - 1) as nat);
        lemma_tick_still(earlier, systems, entity);
    }
}

/// One run of the logger reports every entity that has a position exactly
/// once, with its position, whether or not it has a velocity, and reports
/// nothing else.
pub proof fn lemma_logger_reports_each_once(world: WorldModel)
    requires
        world.consistent(),
    ensures
        world.positions.dom().finite(),
        world.reported(System::Logger).len() == world.positions.dom().len(),
        forall|i: int, j: int|
            0 <= i < j < world.reported(System::Logger).len() ==> (#[trigger] world.reported(
                System::Logger,
            )[i]).entity != (#[trigger] world.reported(System::Logger)[j]).entity,
        forall|e: Entity| #[trigger]
            world.positions.contains_key(e) ==> exists|i: int|
                0 <= i < world.reported(System::Logger).len() && #[trigger] world.reported(
                    System::Logger,
                )[i] == (LogRecord { entity: e, position: world.positions[e] }),
        forall|i: int|
            0 <= i < world.reported(System::Logger).len() ==> world.alive.contains(
                (#[trigger] world.reported(System::Logger)[i]).entity,
            ) && world.positions.contains_key(world.reported(System::Logger)[i].entity),
{
    let order = world.position_order;
    let recs = world.reported(System::Logger);
    assert(order.to_set() =~= world.positions.dom());
    vstd::seq_lib::seq_to_set_is_finite(order);
    order.unique_seq_to_set();
    assert forall|e: Entity| #[trigger] world.positions.contains_key(e) implies exists|i: int|
        0 <= i < recs.len() && #[trigger] recs[i] == (LogRecord {
            entity: e,
            position: world.positions[e],
        }) by {
        assert(order.contains(e));
        let i = order.index_of(e);
        assert(0 <= i < order.len() && order[i] == e);
        assert(recs[i] == (LogRecord { entity: e, position: world.positions[e] }));
    }
    assert forall|i: int| 0 <= i < recs.len() implies world.alive.contains(
        (#[trigger] recs[i]).entity,
    ) && world.positions.contains_key(recs[i].entity) by {
        assert(recs[i].entity == order[i]);
        assert(order.contains(order[i]));
        assert(world.positions.contains_key(order[i]));
        assert(world.alive.contains(order[i]));
    }
}

/// A tick of the demo systems reports the positions as they were
/// before the tick, each once, and then moves them by one step.
pub proof fn lemma_demo_tick(world: WorldModel)
    ensures
        after_tick(world, demo_systems()) == world.ran(
            System::Integrator { dt: DEFAULT_DT },
        ),
        tick_report(world, demo_systems()) == records(world.position_order, world.positions),
{
    let systems = demo_systems();
    let first = systems.drop_last();
    assert(first =~= seq![System::Logger]);
    assert(first.drop_last() =~= Seq::<System>::empty());
    assert(after_tick(world, first.drop_last()) == world);
    assert(after_tick(world, first) == world);
    assert(tick_report(world, first.drop_last()) =~= Seq::<LogRecord>::empty());
    assert(tick_report(world, first) =~= records(world.position_order, world.positions));
    assert(systems.last() == System::Integrator { dt: DEFAULT_DT });
    assert(tick_report(world, systems) =~= records(world.position_order, world.positions));
}

/// The first of the kinds that the world does not know, if there is one.
pub fn missing_kind(kinds: &Vec<ComponentKind>, world: &World) -> (r: Option<ComponentKind>)
    ensures
        r == first_missing(kinds@, world@.registered),
{
    let mut i: usize = 0;
    proof {
        assert(kinds@.take(0) =~= Seq::<ComponentKind>::empty());
    }
    while i < kinds.len()
        invariant
            i <= kinds@.len(),
            first_missing(kinds@.take(i as int), world@.registered).is_none(),
        decreases kinds@.len() - i,
    {
        proof {
            assert(kinds@.take(i + 1).drop_last() =~= kinds@.take(i as int));
            assert(kinds@.take(i + 1).last() == kinds@[i as int]);
        }
        if !world.is_registered(kinds[i]) {
            proof {
                lemma_first_missing_concat(
                    kinds@.take(i + 1),
                    kinds@.skip(i + 1),
                    world@.registered,
                );
                assert(kinds@.take(i + 1) + kinds@.skip(i + 1) =~= kinds@);
            }
            return Some(kinds[i]);
        }
        i += 1;
    }
    proof {
        assert(kinds@.take(i as int) =~= kinds@);
    }
    None
}

/// An ordered list of systems.
pub struct Scheduler {
    systems: Vec<System>,
}

impl Scheduler {
    /// The systems, in the order in which they run.
    pub closed spec fn view(&self) -> Seq<System> {
        self.systems@
    }

    /// A scheduler for the given systems on the given world. Fails if a
    /// system needs a kind of component that the world does not know, with
    /// the first such kind in the order of the systems' declarations.
    pub fn new(systems: Vec<System>, world: &World) -> (r: Result<Scheduler, ConfigurationError>)
        ensures
            match first_missing(all_needs(systems@), world@.registered) {
                Some(kind) => r == Err::<Scheduler, ConfigurationError>(
                    ConfigurationError { kind },
                ),
                None => r.is_ok() && r.unwrap()@ == systems@,
            },
    {
        let mut i: usize = 0;
        proof {
            assert(systems@.take(0) =~= Seq::<System>::empty());
        }
        while i < systems.len()
            invariant
                i <= systems@.len(),
                first_missing(all_needs(systems@.take(i as int)), world@.registered).is_none(),
            decreases systems@.len() - i,
        {
            let kinds = systems[i].needs();
            proof {
                assert(systems@.take(i + 1).drop_last() =~= systems@.take(i as int));
                assert(systems@.take(i + 1).last() == systems@[i as int]);
                lemma_first_missing_concat(
                    all_needs(systems@.take(i as int)),
                    kinds@,
                    world@.registered,
                );
            }
            match missing_kind(&kinds, world) {
                Some(kind) => {
                    proof {
                        lemma_first_missing_stays(systems@, i + 1, world@.registered);
                    }
                    return Err(ConfigurationError { kind });
                },
                None => {},
            }
            i += 1;
        }
        proof {
            assert(systems@.take(i as int) =~= systems@);
        }
        Ok(Scheduler { systems })
    }

    /// How many systems run per tick.
    pub fn len(&self) -> (n: usize)
        ensures
            n == self@.len(),
    {
        self.systems.len()
    }

    /// The systems, in the order in which they run.
    pub fn systems(&self) -> (systems: Vec<System>)
        ensures
            systems@ == self@,
    {
        self.systems.clone()
    }

    /// Runs every system exactly once, in list order; each has finished
    /// before the next starts. What the systems report is appended to the
    /// sink.
    pub fn tick(&self, world: &mut World, sink: &mut Vec<LogRecord>)
        requires
            old(world).wf(),
        ensures
            final(world).wf(),
            final(world)@ == after_tick(old(world)@, self@),
            final(sink)@ == old(sink)@ + tick_report(old(world)@, self@),
    {
        let ghost start = world@;
        let ghost reported = sink@;
        let mut i: usize = 0;
        proof {
            assert(self@.take(0) =~= Seq::<System>::empty());
            assert(sink@ =~= reported + tick_report(start, self@.take(0)));
        }
        while i < self.systems.len()
            invariant
                world.wf(),
                i <= self@.len(),
                self@ == self.systems@,
                world@ == after_tick(start, self@.take(i as int)),
                sink@ == reported + tick_report(start, self@.take(i as int)),
            decreases self@.len() - i,
        {
            proof {
                assert(self@.take(i + 1).drop_last() =~= self@.take(i as int));
                assert(self@.take(i + 1).last() == self@[i as int]);
            }
            world.run(&self.systems[i], sink);
            proof {
                assert(sink@ =~= reported + tick_report(start, self@.take(i + 1)));
            }
            i += 1;
        }
        proof {
            assert(self@.take(i as int) =~= self@);
        }
    }
}

} // verus!
