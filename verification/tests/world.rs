use tiny_ecs::component::{Component, ComponentKind, Position, Velocity, DEFAULT_DT};
use tiny_ecs::entity::Entity;
use tiny_ecs::render::{draw, DrawCommand, CIRCLE_RADIUS, CIRCLE_STROKE};
use tiny_ecs::scheduler::{missing_kind, Scheduler};
use tiny_ecs::simulation::{build_scheduler, build_world, Simulation};
use tiny_ecs::systems::{LogRecord, System};
use tiny_ecs::world::{ConfigurationError, World};

fn e(id: u64) -> Entity {
    Entity::from_id(id)
}

fn pos(x: i64, y: i64) -> Component {
    Component::Position(Position::new(x, y))
}

fn vel(x: i64, y: i64) -> Component {
    Component::Velocity(Velocity::new(x, y))
}

fn registered_world() -> World {
    let mut w = World::new();
    w.register(ComponentKind::Position);
    w.register(ComponentKind::Velocity);
    w
}

fn circle(x: i64, y: i64) -> DrawCommand {
    DrawCommand::FilledCircle { x, y, radius: 100_000, stroke: 2_000 }
}

#[test]
fn entity_handles() {
    assert_eq!(e(7).id(), 7);
    assert_eq!(e(7), Entity { id: 7 });
    assert_ne!(e(7), e(8));
}

#[test]
fn new_world_is_empty() {
    let w = World::new();
    assert_eq!(w.entity_count(), 0);
    assert!(w.entities().is_empty());
    assert!(!w.is_registered(ComponentKind::Position));
    assert!(!w.is_registered(ComponentKind::Velocity));
    assert!(!w.is_alive(e(0)));
}

#[test]
fn registration_is_idempotent() {
    let mut w = World::new();
    w.register(ComponentKind::Position);
    assert!(w.is_registered(ComponentKind::Position));
    assert!(!w.is_registered(ComponentKind::Velocity));
    let a = w.create_entity().with(pos(1, 2)).build(&mut w).unwrap();
    w.register(ComponentKind::Position);
    assert!(w.is_registered(ComponentKind::Position));
    assert!(!w.is_registered(ComponentKind::Velocity));
    assert_eq!(w.position_of(a), Some(Position::new(1, 2)));
    assert_eq!(w.entities(), vec![a]);
}

#[test]
fn build_allocates_fresh_entities() {
    let mut w = registered_world();
    let a = w.create_entity().with(pos(4_000, 7_000)).build(&mut w).unwrap();
    let b = w.create_entity().with(pos(0, 380_000)).with(vel(5_000, 100)).build(&mut w).unwrap();
    let c = w.create_entity().build(&mut w).unwrap();
    assert_eq!(a, e(0));
    assert_eq!(b, e(1));
    assert_eq!(c, e(2));
    assert_eq!(w.entities(), vec![a, b, c]);
    assert_eq!(w.entity_count(), 3);
    assert_eq!(w.position_of(a), Some(Position::new(4_000, 7_000)));
    assert_eq!(w.velocity_of(a), None);
    assert_eq!(w.position_of(b), Some(Position::new(0, 380_000)));
    assert_eq!(w.velocity_of(b), Some(Velocity::new(5_000, 100)));
    assert_eq!(w.position_of(c), None);
    assert_eq!(w.velocity_of(c), None);
    assert_eq!(w.positions().unwrap().entities(), vec![a, b]);
    assert_eq!(w.velocities().unwrap().entities(), vec![b]);
}

#[test]
fn builder_keeps_the_last_component_of_a_kind() {
    let mut w = registered_world();
    let a = w.create_entity().with(pos(1, 1)).with(pos(2, 2)).build(&mut w).unwrap();
    assert_eq!(w.position_of(a), Some(Position::new(2, 2)));
    assert_eq!(w.positions().unwrap().len(), 1);
}

#[test]
fn create_entity_alone_changes_nothing() {
    let w = registered_world();
    let _ = w.create_entity().with(pos(1, 1));
    assert_eq!(w.entity_count(), 0);
    assert!(w.positions().unwrap().is_empty());
}

#[test]
fn destroy_removes_the_entity_and_its_components() {
    let mut w = registered_world();
    let a = w.create_entity().with(pos(1, 1)).with(vel(1, 1)).build(&mut w).unwrap();
    let b = w.create_entity().with(pos(2, 2)).with(vel(2, 2)).build(&mut w).unwrap();
    w.destroy_entity(a);
    assert!(!w.is_alive(a));
    assert!(w.is_alive(b));
    assert_eq!(w.entities(), vec![b]);
    assert_eq!(w.position_of(a), None);
    assert_eq!(w.velocity_of(a), None);
    assert_eq!(w.position_of(b), Some(Position::new(2, 2)));
    assert_eq!(w.velocity_of(b), Some(Velocity::new(2, 2)));
    assert_eq!(w.positions().unwrap().entities(), vec![b]);
    assert_eq!(w.velocities().unwrap().entities(), vec![b]);
}

#[test]
fn destroy_twice_is_the_same_as_once() {
    let mut w = registered_world();
    let a = w.create_entity().with(pos(1, 1)).build(&mut w).unwrap();
    let b = w.create_entity().with(pos(2, 2)).with(vel(2, 2)).build(&mut w).unwrap();
    w.destroy_entity(a);
    let entities = w.entities();
    let positions = w.positions().unwrap().entities();
    let velocities = w.velocities().unwrap().entities();
    w.destroy_entity(a);
    assert_eq!(w.entities(), entities);
    assert_eq!(w.positions().unwrap().entities(), positions);
    assert_eq!(w.velocities().unwrap().entities(), velocities);
    assert_eq!(w.position_of(b), Some(Position::new(2, 2)));
    assert_eq!(w.velocity_of(b), Some(Velocity::new(2, 2)));
    assert_eq!(w.entity_count(), 1);
}

#[test]
fn destroy_of_an_unknown_entity_is_a_no_op() {
    let mut w = registered_world();
    let a = w.create_entity().with(pos(1, 1)).build(&mut w).unwrap();
    w.destroy_entity(e(99));
    assert_eq!(w.entities(), vec![a]);
    assert_eq!(w.position_of(a), Some(Position::new(1, 1)));
}

#[test]
fn identifiers_are_not_reused() {
    let mut w = registered_world();
    let a = w.create_entity().with(pos(1, 1)).build(&mut w).unwrap();
    w.destroy_entity(a);
    let b = w.create_entity().with(pos(2, 2)).build(&mut w).unwrap();
    assert_ne!(a, b);
    assert_eq!(b, e(1));
    assert!(!w.is_alive(a));
    assert_eq!(w.position_of(a), None);
}

#[test]
fn unregistered_storage_is_a_configuration_error() {
    let mut w = World::new();
    assert_eq!(
        w.positions().err(),
        Some(ConfigurationError { kind: ComponentKind::Position })
    );
    assert_eq!(
        w.velocities().err(),
        Some(ConfigurationError { kind: ComponentKind::Velocity })
    );
    w.register(ComponentKind::Position);
    assert!(w.positions().is_ok());
    assert_eq!(
        w.velocities().err(),
        Some(ConfigurationError { kind: ComponentKind::Velocity })
    );
}

#[test]
fn build_with_an_unregistered_component_fails_and_changes_nothing() {
    let mut w = World::new();
    let r = w.create_entity().with(pos(1, 1)).build(&mut w);
    assert_eq!(r, Err(ConfigurationError { kind: ComponentKind::Position }));
    assert_eq!(w.entity_count(), 0);
    w.register(ComponentKind::Position);
    let r = w.create_entity().with(vel(1, 1)).with(pos(1, 1)).build(&mut w);
    assert_eq!(r, Err(ConfigurationError { kind: ComponentKind::Velocity }));
    assert_eq!(w.entity_count(), 0);
    assert!(w.positions().unwrap().is_empty());
    let r = w.create_entity().with(pos(1, 1)).build(&mut w);
    assert_eq!(r, Ok(e(0)));
}

#[test]
fn insert_and_remove_components() {
    let mut w = registered_world();
    let a = w.create_entity().build(&mut w).unwrap();
    assert_eq!(w.insert(a, pos(3, 4)), Ok(true));
    assert_eq!(w.position_of(a), Some(Position::new(3, 4)));
    assert_eq!(w.insert(a, pos(5, 6)), Ok(true));
    assert_eq!(w.position_of(a), Some(Position::new(5, 6)));
    assert_eq!(w.insert(a, vel(1, 0)), Ok(true));
    assert_eq!(w.velocity_of(a), Some(Velocity::new(1, 0)));
    assert_eq!(w.insert(e(50), pos(0, 0)), Ok(false));
    assert_eq!(w.position_of(e(50)), None);
    assert_eq!(w.remove(a, ComponentKind::Position), Ok(Some(pos(5, 6))));
    assert_eq!(w.position_of(a), None);
    assert_eq!(w.remove(a, ComponentKind::Position), Ok(None));
    assert_eq!(w.remove(a, ComponentKind::Velocity), Ok(Some(vel(1, 0))));
    assert!(w.is_alive(a));
}

#[test]
fn insert_and_remove_of_an_unregistered_kind_fail() {
    let mut w = World::new();
    w.register(ComponentKind::Position);
    let a = w.create_entity().build(&mut w).unwrap();
    assert_eq!(w.insert(a, vel(1, 1)), Err(ConfigurationError { kind: ComponentKind::Velocity }));
    assert_eq!(
        w.remove(a, ComponentKind::Velocity),
        Err(ConfigurationError { kind: ComponentKind::Velocity })
    );
    assert_eq!(w.velocity_of(a), None);
}

#[test]
fn mutable_storage_access() {
    let mut w = World::new();
    assert_eq!(
        w.positions_mut().err(),
        Some(ConfigurationError { kind: ComponentKind::Position })
    );
    assert_eq!(
        w.velocities_mut().err(),
        Some(ConfigurationError { kind: ComponentKind::Velocity })
    );
    w.register(ComponentKind::Position);
    w.register(ComponentKind::Velocity);
    let a = w.create_entity().with(pos(1, 1)).build(&mut w).unwrap();
    w.positions_mut().unwrap().set(a, Position::new(7, 8));
    w.velocities_mut().unwrap().set(a, Velocity::new(20, -20));
    assert_eq!(w.position_of(a), Some(Position::new(7, 8)));
    assert_eq!(w.velocity_of(a), Some(Velocity::new(20, -20)));
    assert_eq!(w.velocities_mut().unwrap().remove(a), Some(Velocity::new(20, -20)));
    assert_eq!(w.velocity_of(a), None);
    assert_eq!(w.entities(), vec![a]);
}

#[test]
fn run_one_system() {
    let mut w = build_world();
    let mut sink: Vec<LogRecord> = Vec::new();
    w.run(&System::Integrator { dt: DEFAULT_DT }, &mut sink);
    assert!(sink.is_empty());
    assert_eq!(w.position_of(e(1)), Some(Position::new(250, 380_005)));
    w.run(&System::Logger, &mut sink);
    assert_eq!(sink.len(), 2);
    assert_eq!(sink[1], LogRecord { entity: e(1), position: Position::new(250, 380_005) });
    assert_eq!(w.position_of(e(1)), Some(Position::new(250, 380_005)));
}

#[test]
fn scheduler_construction_checks_registration() {
    let w = World::new();
    let r = Scheduler::new(vec![System::Logger], &w);
    assert_eq!(r.err(), Some(ConfigurationError { kind: ComponentKind::Position }));
    let r = Scheduler::new(vec![System::Integrator { dt: 50 }, System::Logger], &w);
    assert_eq!(r.err(), Some(ConfigurationError { kind: ComponentKind::Velocity }));
    let mut w = World::new();
    w.register(ComponentKind::Position);
    assert!(Scheduler::new(vec![System::Logger], &w).is_ok());
    let r = Scheduler::new(vec![System::Logger, System::Integrator { dt: 50 }], &w);
    assert_eq!(r.err(), Some(ConfigurationError { kind: ComponentKind::Velocity }));
    let mut w = World::new();
    w.register(ComponentKind::Velocity);
    let r = Scheduler::new(vec![System::Integrator { dt: 50 }], &w);
    assert_eq!(r.err(), Some(ConfigurationError { kind: ComponentKind::Position }));
    assert!(Scheduler::new(Vec::new(), &World::new()).is_ok());
}

#[test]
fn missing_kind_finds_the_first() {
    let mut w = World::new();
    let kinds = vec![ComponentKind::Velocity, ComponentKind::Position];
    assert_eq!(missing_kind(&kinds, &w), Some(ComponentKind::Velocity));
    w.register(ComponentKind::Velocity);
    assert_eq!(missing_kind(&kinds, &w), Some(ComponentKind::Position));
    w.register(ComponentKind::Position);
    assert_eq!(missing_kind(&kinds, &w), None);
    assert_eq!(missing_kind(&Vec::new(), &World::new()), None);
}

#[test]
fn unregistered_component_fails_before_any_tick() {
    let mut w = World::new();
    w.register(ComponentKind::Position);
    let a = w.create_entity().with(pos(1, 1)).build(&mut w).unwrap();
    assert_eq!(
        build_scheduler(&w).err(),
        Some(ConfigurationError { kind: ComponentKind::Velocity })
    );
    assert_eq!(w.position_of(a), Some(Position::new(1, 1)));
    let r = Simulation::new(w, vec![System::Logger, System::Integrator { dt: DEFAULT_DT }]);
    assert_eq!(r.err(), Some(ConfigurationError { kind: ComponentKind::Velocity }));
}

#[test]
fn scheduler_keeps_the_systems_in_order() {
    let w = registered_world();
    let systems = vec![System::Integrator { dt: 7 }, System::Logger, System::Logger];
    let s = Scheduler::new(systems.clone(), &w).unwrap();
    assert_eq!(s.len(), 3);
    assert_eq!(s.systems(), systems);
    let s = build_scheduler(&w).unwrap();
    assert_eq!(s.systems(), vec![System::Logger, System::Integrator { dt: 50 }]);
}

#[test]
fn tick_runs_systems_in_list_order() {
    let mut w = build_world();
    let s = Scheduler::new(vec![System::Logger, System::Integrator { dt: DEFAULT_DT }], &w)
        .unwrap();
    let mut sink: Vec<LogRecord> = Vec::new();
    s.tick(&mut w, &mut sink);
    assert_eq!(
        sink,
        vec![
            LogRecord { entity: e(0), position: Position::new(4_000, 7_000) },
            LogRecord { entity: e(1), position: Position::new(0, 380_000) },
        ]
    );
    let mut w = build_world();
    let s = Scheduler::new(vec![System::Integrator { dt: DEFAULT_DT }, System::Logger], &w)
        .unwrap();
    let mut sink: Vec<LogRecord> = Vec::new();
    s.tick(&mut w, &mut sink);
    assert_eq!(
        sink,
        vec![
            LogRecord { entity: e(0), position: Position::new(4_000, 7_000) },
            LogRecord { entity: e(1), position: Position::new(250, 380_005) },
        ]
    );
}

#[test]
fn tick_runs_each_system_exactly_once() {
    let mut w = build_world();
    let s = Scheduler::new(
        vec![
            System::Integrator { dt: DEFAULT_DT },
            System::Logger,
            System::Integrator { dt: DEFAULT_DT },
            System::Logger,
        ],
        &w,
    ).unwrap();
    let mut sink: Vec<LogRecord> = Vec::new();
    s.tick(&mut w, &mut sink);
    assert_eq!(sink.len(), 4);
    assert_eq!(sink[1].position, Position::new(250, 380_005));
    assert_eq!(sink[3].position, Position::new(500, 380_010));
    assert_eq!(w.position_of(e(1)), Some(Position::new(500, 380_010)));
}

#[test]
fn logger_reports_each_positioned_entity_once_per_tick() {
    let mut w = registered_world();
    let a = w.create_entity().with(pos(1, 1)).build(&mut w).unwrap();
    let b = w.create_entity().with(vel(1, 1)).build(&mut w).unwrap();
    let c = w.create_entity().with(pos(3, 3)).with(vel(0, 0)).build(&mut w).unwrap();
    let d = w.create_entity().with(pos(4, 4)).build(&mut w).unwrap();
    w.destroy_entity(d);
    let s = build_scheduler(&w).unwrap();
    let mut sink: Vec<LogRecord> = Vec::new();
    for tick in 1..=3 {
        s.tick(&mut w, &mut sink);
        assert_eq!(sink.len(), 2 * tick);
    }
    let logged: Vec<Entity> = sink.iter().map(|r| r.entity).collect();
    assert_eq!(logged, vec![a, c, a, c, a, c]);
    assert!(!logged.contains(&b));
    assert!(!logged.contains(&d));
}

#[test]
fn demo_world_holds_two_entities() {
    let w = build_world();
    assert!(w.is_registered(ComponentKind::Position));
    assert!(w.is_registered(ComponentKind::Velocity));
    assert_eq!(w.entities(), vec![e(0), e(1)]);
    assert_eq!(w.position_of(e(0)), Some(Position::new(4_000, 7_000)));
    assert_eq!(w.velocity_of(e(0)), None);
    assert_eq!(w.position_of(e(1)), Some(Position::new(0, 380_000)));
    assert_eq!(w.velocity_of(e(1)), Some(Velocity::new(5_000, 100)));
}

#[test]
fn demo_scenario_after_one_and_twenty_ticks() {
    let w = build_world();
    let mut sim = Simulation::new(w, vec![System::Logger, System::Integrator { dt: DEFAULT_DT }])
        .unwrap();
    let mut sink: Vec<LogRecord> = Vec::new();
    sim.update(&mut sink);
    assert_eq!(sim.world().position_of(e(0)), Some(Position::new(4_000, 7_000)));
    assert_eq!(sim.world().position_of(e(1)), Some(Position::new(250, 380_005)));
    for _ in 1..20 {
        sim.update(&mut sink);
    }
    assert_eq!(sim.world().position_of(e(0)), Some(Position::new(4_000, 7_000)));
    assert_eq!(sim.world().position_of(e(1)), Some(Position::new(5_000, 380_100)));
    assert_eq!(sink.len(), 40);
    assert_eq!(sink[0], LogRecord { entity: e(0), position: Position::new(4_000, 7_000) });
    assert_eq!(sink[1], LogRecord { entity: e(1), position: Position::new(0, 380_000) });
    assert_eq!(sink[39], LogRecord { entity: e(1), position: Position::new(4_750, 380_095) });
}

#[test]
fn draw_issues_one_circle_per_positioned_entity() {
    assert_eq!(CIRCLE_RADIUS, 100_000);
    assert_eq!(CIRCLE_STROKE, 2_000);
    let w = build_world();
    assert_eq!(
        draw(&w),
        vec![DrawCommand::Clear, circle(4_000, 7_000), circle(0, 380_000), DrawCommand::Present]
    );
    assert_eq!(draw(&World::new()), vec![DrawCommand::Clear, DrawCommand::Present]);
}

#[test]
fn draw_skips_entities_without_position_and_destroyed_ones() {
    let mut w = registered_world();
    let a = w.create_entity().with(pos(1, 1)).build(&mut w).unwrap();
    let _b = w.create_entity().with(vel(9, 9)).build(&mut w).unwrap();
    let c = w.create_entity().build(&mut w).unwrap();
    let _d = w.create_entity().with(pos(4, 4)).build(&mut w).unwrap();
    assert_eq!(w.insert(c, pos(3, 3)), Ok(true));
    w.destroy_entity(a);
    assert_eq!(
        draw(&w),
        vec![DrawCommand::Clear, circle(3, 3), circle(4, 4), DrawCommand::Present]
    );
    assert_eq!(w.positions().unwrap().entities(), vec![e(3), e(2)]);
}

#[test]
fn frame_ticks_then_draws() {
    let mut sim = Simulation::new(build_world(), vec![System::Integrator { dt: 50 }]).unwrap();
    let mut sink: Vec<LogRecord> = Vec::new();
    let commands = sim.frame(&mut sink);
    assert_eq!(
        commands,
        vec![DrawCommand::Clear, circle(4_000, 7_000), circle(250, 380_005), DrawCommand::Present]
    );
    assert!(sink.is_empty());
    assert_eq!(sim.draw(), commands);
    let commands = sim.frame(&mut sink);
    assert_eq!(commands[2], circle(500, 380_010));
}
