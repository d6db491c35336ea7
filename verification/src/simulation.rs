//! The application loop: a world and its scheduler, driven frame by frame.

use crate::component::{Component, ComponentKind, Position, Velocity, DEFAULT_DT};
use crate::render::{draw, frame_of, DrawCommand};
use crate::scheduler::{
    after_tick,
    all_needs,
    first_missing,
    lemma_after_tick_keeps,
    demo_systems,
    tick_report,
    Scheduler,
};
use crate::systems::{LogRecord, System};
use crate::world::{ConfigurationError, World, WorldModel};
use vstd::prelude::*;

verus! {

/// The world of the demo: positions and velocities are
/// registered; the first entity rests at (4.0, 7.0), the second starts at
/// (0.0, 380.0) and moves at (5.0, 0.1).
pub open spec fn demo_world() -> WorldModel {
    WorldModel::empty().with_registered(ComponentKind::Position).with_registered(
        ComponentKind::Velocity,
    ).spawned(Some(Position { x: 4_000, y: 7_000 }), None).spawned(
        Some(Position { x: 0, y: 380_000 }),
        Some(Velocity { x: 5_000, y: 100 }),
    )
}

/// Builds the world of the demo.
pub fn build_world() -> (world: World)
    ensures
        world.wf(),
        world@ == demo_world(),
{
    let mut world = World::new();
    world.register(ComponentKind::Position);
    world.register(ComponentKind::Velocity);
    let first = world.create_entity().with(Component::Position(Position { x: 4_000, y: 7_000 }));
    let _ = first.build(&mut world);
    let second = world.create_entity().with(
        Component::Position(Position { x: 0, y: 380_000 }),
    ).with(Component::Velocity(Velocity { x: 5_000, y: 100 }));
    let _ = second.build(&mut world);
    world
}

/// Builds the scheduler of the demo for the world: the
/// logger, then the integrator with the default time step. Fails if the
/// world does not know positions or velocities.
pub fn build_scheduler(world: &World) -> (r: Result<Scheduler, ConfigurationError>)
    ensures
        match first_missing(all_needs(demo_systems()), world@.registered) {
            Some(kind) => r == Err::<Scheduler, ConfigurationError>(ConfigurationError { kind }),
            None => r.is_ok() && r.unwrap()@ == demo_systems(),
        },
{
    let mut systems: Vec<System> = Vec::new();
    systems.push(System::Logger);
    systems.push(System::Integrator { dt: DEFAULT_DT });
    assert(systems@ =~= demo_systems());
    Scheduler::new(systems, world)
}

/// A world together with the scheduler that runs on it.
pub struct Simulation {
    world: World,
    scheduler: Scheduler,
}

impl Simulation {
    /// The world is well formed and knows every kind of component that a
    /// system of the scheduler needs.
    pub closed spec fn wf(&self) -> bool {
        &&& self.world.wf()
        &&& first_missing(all_needs(self.scheduler@), self.world@.registered).is_none()
    }

    /// What the world holds.
    pub closed spec fn model(&self) -> WorldModel {
        self.world@
    }

    /// The systems, in the order in which they run.
    pub closed spec fn systems(&self) -> Seq<System> {
        self.scheduler@
    }

    /// Puts the systems in charge of the world. Fails before any tick if a
    /// system needs a kind of component that the world does not know.
    pub fn new(world: World, systems: Vec<System>) -> (r: Result<Simulation, ConfigurationError>)
        requires
            world.wf(),
        ensures
            match first_missing(all_needs(systems@), world@.registered) {
                Some(kind) => r == Err::<Simulation, ConfigurationError>(
                    ConfigurationError { kind },
                ),
                None => r.is_ok() && r.unwrap().wf() && r.unwrap().model() == world@
                    && r.unwrap().systems() == systems@,
            },
    {
        match Scheduler::new(systems, &world) {
            Ok(scheduler) => Ok(Simulation { world, scheduler }),
            Err(e) => Err(e),
        }
    }

    /// The world, for reading.
    pub fn world(&self) -> (world: &World)
        requires
            self.wf(),
        ensures
            world.wf(),
            world@ == self.model(),
    {
        &self.world
    }

    /// Takes the simulation apart again.
    pub fn into_parts(self) -> (parts: (World, Scheduler))
        requires
            self.wf(),
        ensures
            parts.0.wf(),
            parts.0@ == self.model(),
            parts.1@ == self.systems(),
    {
        (self.world, self.scheduler)
    }

    /// One tick: every system runs once, in order, and what the systems
    /// report is appended to the sink.
    pub fn update(&mut self, sink: &mut Vec<LogRecord>)
        requires
            old(self).wf(),
        ensures
            final(self).wf(),
            final(self).systems() == old(self).systems(),
            final(self).model() == after_tick(old(self).model(), old(self).systems()),
            final(sink)@ == old(sink)@ + tick_report(old(self).model(), old(self).systems()),
    {
        proof {
            lemma_after_tick_keeps(self.world@, self.scheduler@);
        }
        self.scheduler.tick(&mut self.world, sink);
    }

    /// The draw commands of the frame as the world stands.
    pub fn draw(&self) -> (commands: Vec<DrawCommand>)
        requires
            self.wf(),
        ensures
            commands@ == frame_of(self.model()),
    {
        draw(&self.world)
    }

    /// One frame: a tick, then the draw commands of the world after it.
    pub fn frame(&mut self, sink: &mut Vec<LogRecord>) -> (commands: Vec<DrawCommand>)
        requires
            old(self).wf(),
        ensures
            final(self).wf(),
            final(self).systems() == old(self).systems(),
            final(self).model() == after_tick(old(self).model(), old(self).systems()),
            final(sink)@ == old(sink)@ + tick_report(old(self).model(), old(self).systems()),
            commands@ == frame_of(final(self).model()),
    {
        self.update(sink);
        self.draw()
    }
}

} // verus!
