//! The world: the live entities and one storage per kind of component.

use crate::component::{Component, ComponentKind, Position, Velocity};
use crate::entity::Entity;
use crate::storage::{
    lemma_filter_out_absent,
    lemma_filter_out_at,
    lemma_without_members,
    without,
    Storage,
};
use crate::systems::{integrate, integrated, log_positions, records, LogRecord, System};
use vstd::prelude::*;

verus! {

/// Asking for a kind of component that the world does not know.
#[derive(Clone, Copy, Debug, PartialEq, Eq, Structural)]
pub struct ConfigurationError {
    pub kind: ComponentKind,
}

/// What a world holds, as plain mathematics.
#[verifier::ext_equal]
pub struct WorldModel {
    /// The number that the next entity gets.
    pub next_id: nat,
    /// The live entities, oldest first.
    pub alive: Seq<Entity>,
    /// The kinds of component that have been registered.
    pub registered: Set<ComponentKind>,
    /// The position of each entity that has one.
    pub positions: Map<Entity, Position>,
    /// The entities that have a position, in the order of the storage.
    pub position_order: Seq<Entity>,
    /// The velocity of each entity that has one.
    pub velocities: Map<Entity, Velocity>,
    /// The entities that have a velocity, in the order of the storage.
    pub velocity_order: Seq<Entity>,
}

impl WorldModel {
    /// The world without entities and without registered kinds.
    pub open spec fn empty() -> WorldModel {
        WorldModel {
            next_id: 0,
            alive: Seq::empty(),
            registered: Set::empty(),
            positions: Map::empty(),
            position_order: Seq::empty(),
            velocities: Map::empty(),
            velocity_order: Seq::empty(),
        }
    }

    /// What holds of every world: no entity is alive twice, every live
    /// entity has a number below the next one, only live entities hold
    /// components, and only registered kinds are held.
    pub open spec fn consistent(self) -> bool {
        &&& self.next_id <= u64::MAX
        &&& self.alive.no_duplicates()
        &&& forall|e: Entity| #[trigger] self.alive.contains(e) ==> e.id < self.next_id
        &&& self.position_order.no_duplicates()
        &&& self.velocity_order.no_duplicates()
        &&& forall|e: Entity|
            self.position_order.contains(e) <==> #[trigger] self.positions.contains_key(e)
        &&& forall|e: Entity|
            self.velocity_order.contains(e) <==> #[trigger] self.velocities.contains_key(e)
        &&& forall|e: Entity| #[trigger] self.positions.contains_key(e) ==> self.alive.contains(e)
        &&& forall|e: Entity| #[trigger] self.velocities.contains_key(e) ==> self.alive.contains(e)
        &&& !self.registered.contains(ComponentKind::Position) ==> self.position_order.len() == 0
        &&& !self.registered.contains(ComponentKind::Velocity) ==> self.velocity_order.len() == 0
    }

    /// The world after the kind has been registered.
    pub open spec fn with_registered(self, kind: ComponentKind) -> WorldModel {
        WorldModel { registered: self.registered.insert(kind), ..self }
    }

    /// The first kind that the given components need and the world does not
    /// know, positions first.
    pub open spec fn first_unregistered(
        self,
        position: Option<Position>,
        velocity: Option<Velocity>,
    ) -> Option<ComponentKind> {
        if position.is_some() && !self.registered.contains(ComponentKind::Position) {
            Some(ComponentKind::Position)
        } else if velocity.is_some() && !self.registered.contains(ComponentKind::Velocity) {
            Some(ComponentKind::Velocity)
        } else {
            None
        }
    }

    /// The entity that the next spawn makes.
    pub open spec fn next_entity(self) -> Entity {
        Entity { id: self.next_id as u64 }
    }

    /// The world after a new entity with the given components has come to
    /// life.
    pub open spec fn spawned(
        self,
        position: Option<Position>,
        velocity: Option<Velocity>,
    ) -> WorldModel {
        let e = self.next_entity();
        WorldModel {
            next_id: self.next_id + 1,
            alive: self.alive.push(e),
            registered: self.registered,
            positions: match position {
                Some(p) => self.positions.insert(e, p),
                None => self.positions,
            },
            position_order: match position {
                Some(p) => self.position_order.push(e),
                None => self.position_order,
            },
            velocities: match velocity {
                Some(v) => self.velocities.insert(e, v),
                None => self.velocities,
            },
            velocity_order: match velocity {
                Some(v) => self.velocity_order.push(e),
                None => self.velocity_order,
            },
        }
    }

    /// The world after the entity has been destroyed: it is not alive and
    /// holds no component. Everything else stays.
    pub open spec fn destroyed(self, entity: Entity) -> WorldModel {
        WorldModel {
            next_id: self.next_id,
            alive: without(self.alive, entity),
            registered: self.registered,
            positions: self.positions.remove(entity),
            position_order: without(self.position_order, entity),
            velocities: self.velocities.remove(entity),
            velocity_order: without(self.velocity_order, entity),
        }
    }

    /// The world after the entity has been given the component.
    pub open spec fn with_component(self, entity: Entity, component: Component) -> WorldModel {
        match component {
            Component::Position(p) => WorldModel {
                positions: self.positions.insert(entity, p),
                position_order: if self.positions.contains_key(entity) {
                    self.position_order
                } else {
                    self.position_order.push(entity)
                },
                ..self
            },
            Component::Velocity(v) => WorldModel {
                velocities: self.velocities.insert(entity, v),
                velocity_order: if self.velocities.contains_key(entity) {
                    self.velocity_order
                } else {
                    self.velocity_order.push(entity)
                },
                ..self
            },
        }
    }

    /// The component of the given kind that the entity holds, if any.
    pub open spec fn component(self, entity: Entity, kind: ComponentKind) -> Option<Component> {
        match kind {
            ComponentKind::Position => if self.positions.contains_key(entity) {
                Some(Component::Position(self.positions[entity]))
            } else {
                None
            },
            ComponentKind::Velocity => if self.velocities.contains_key(entity) {
                Some(Component::Velocity(self.velocities[entity]))
            } else {
                None
            },
        }
    }

    /// The world after the entity has lost its component of the given kind.
    pub open spec fn without_component(self, entity: Entity, kind: ComponentKind) -> WorldModel {
        match kind {
            ComponentKind::Position => WorldModel {
                positions: self.positions.remove(entity),
                position_order: without(self.position_order, entity),
                ..self
            },
            ComponentKind::Velocity => WorldModel {
                velocities: self.velocities.remove(entity),
                velocity_order: without(self.velocity_order, entity),
                ..self
            },
        }
    }

    /// The world after the system has run once.
    pub open spec fn ran(self, system: System) -> WorldModel {
        match system {
            System::Logger => self,
            System::Integrator { dt } => WorldModel {
                positions: integrated(self.positions, self.velocities, dt),
                ..self
            },
        }
    }

    /// What the system reports when it runs once on this world.
    pub open spec fn reported(self, system: System) -> Seq<LogRecord> {
        match system {
            System::Logger => records(self.position_order, self.positions),
            System::Integrator { dt } => Seq::empty(),
        }
    }

    /// Whether the two worlds hold the same components of the given kind,
    /// in the same order.
    pub open spec fn agrees_on(self, other: WorldModel, kind: ComponentKind) -> bool {
        match kind {
            ComponentKind::Position => self.positions == other.positions && self.position_order
                == other.position_order,
            ComponentKind::Velocity => self.velocities == other.velocities && self.velocity_order
                == other.velocity_order,
        }
    }

    /// What a system does depends only on the storages that it declares:
    /// on two worlds that agree on every kind that the system needs it
    /// reports the same and leaves the same in the storages it writes.
    pub proof fn lemma_system_sees_declared(self, other: WorldModel, system: System)
        requires
            forall|i: int|
                0 <= i < system.spec_needs().len() ==> self.agrees_on(
                    other,
                    #[trigger] system.spec_needs()[i],
                ),
        ensures
            self.reported(system) == other.reported(system),
            forall|i: int|
                0 <= i < system.spec_writes().len() ==> self.ran(system).agrees_on(
                    other.ran(system),
                    #[trigger] system.spec_writes()[i],
                ),
    {
        match system {
            System::Logger => {
                assert(system.spec_needs()[0] == ComponentKind::Position);
            },
            System::Integrator { dt } => {
                assert(system.spec_needs()[0] == ComponentKind::Velocity);
                assert(system.spec_needs()[1] == ComponentKind::Position);
            },
        }
    }

    /// Registering a kind a second time changes nothing.
    pub proof fn lemma_register_idempotent(self, kind: ComponentKind)
        ensures
            self.with_registered(kind).with_registered(kind) == self.with_registered(kind),
            self.registered.contains(kind) ==> self.with_registered(kind) == self,
            self.consistent() ==> self.with_registered(kind).consistent(),
    {
        assert(self.registered.insert(kind).insert(kind) =~= self.registered.insert(kind));
        if self.registered.contains(kind) {
            assert(self.registered.insert(kind) =~= self.registered);
        }
    }

    /// A new entity is none of the live ones, and the world with it is
    /// consistent.
    pub proof fn lemma_spawn_is_fresh(self, position: Option<Position>, velocity: Option<Velocity>)
        requires
            self.consistent(),
            self.next_id < u64::MAX,
            self.first_unregistered(position, velocity).is_none(),
        ensures
            !self.alive.contains(self.next_entity()),
            self.spawned(position, velocity).alive.contains(self.next_entity()),
            self.spawned(position, velocity).consistent(),
    {
        let e = self.next_entity();
        let after = self.spawned(position, velocity);
        if self.alive.contains(e) {
            assert(e.id < self.next_id);
        }
        lemma_push_fresh(self.alive, e);
        if self.position_order.contains(e) {
            assert(self.positions.contains_key(e));
        }
        if self.velocity_order.contains(e) {
            assert(self.velocities.contains_key(e));
        }
        lemma_push_fresh(self.position_order, e);
        lemma_push_fresh(self.velocity_order, e);
        assert(after.alive[self.alive.len() as int] == e);
        assert forall|x: Entity| #[trigger] after.alive.contains(x) implies x.id < after.next_id by {
            if x != e {
                assert(self.alive.contains(x));
            }
        }
        assert(after.position_order.len() > 0 ==> position.is_some() || self.position_order.len()
            > 0);
        assert(after.velocity_order.len() > 0 ==> velocity.is_some() || self.velocity_order.len()
            > 0);
    }

    /// Destroying an entity twice is the same as destroying it once.
    pub proof fn lemma_destroy_idempotent(self, entity: Entity)
        ensures
            self.destroyed(entity).destroyed(entity) == self.destroyed(entity),
    {
        let once = self.destroyed(entity);
        lemma_without_members(self.alive, entity);
        lemma_without_members(self.position_order, entity);
        lemma_without_members(self.velocity_order, entity);
        lemma_filter_out_absent(once.alive, entity);
        lemma_filter_out_absent(once.position_order, entity);
        lemma_filter_out_absent(once.velocity_order, entity);
        assert(once.positions.remove(entity) =~= once.positions);
        assert(once.velocities.remove(entity) =~= once.velocities);
        assert(once.destroyed(entity) =~= once);
    }

    /// Destroying an entity that is not alive changes nothing.
    pub proof fn lemma_destroy_absent(self, entity: Entity)
        requires
            self.consistent(),
            !self.alive.contains(entity),
        ensures
            self.destroyed(entity) == self,
    {
        if self.position_order.contains(entity) {
            assert(self.positions.contains_key(entity));
        }
        if self.velocity_order.contains(entity) {
            assert(self.velocities.contains_key(entity));
        }
        lemma_filter_out_absent(self.alive, entity);
        lemma_filter_out_absent(self.position_order, entity);
        lemma_filter_out_absent(self.velocity_order, entity);
        assert(self.positions.remove(entity) =~= self.positions);
        assert(self.velocities.remove(entity) =~= self.velocities);
        assert(self.destroyed(entity) =~= self);
    }

    /// After its destruction an entity is not alive and holds no component;
    /// every other entity is as it was, and the world is consistent.
    pub proof fn lemma_destroyed(self, entity: Entity)
        requires
            self.consistent(),
        ensures
            self.destroyed(entity).consistent(),
            !self.destroyed(entity).alive.contains(entity),
            !self.destroyed(entity).positions.contains_key(entity),
            !self.destroyed(entity).velocities.contains_key(entity),
            forall|e: Entity|
                e != entity ==> (#[trigger] self.destroyed(entity).alive.contains(e)
                    <==> self.alive.contains(e)),
            forall|e: Entity|
                e != entity && self.positions.contains_key(e) ==> #[trigger] self.destroyed(
                    entity,
                ).positions.contains_key(e) && self.destroyed(entity).positions[e]
                    == self.positions[e],
            forall|e: Entity|
                e != entity && self.velocities.contains_key(e) ==> #[trigger] self.destroyed(
                    entity,
                ).velocities.contains_key(e) && self.destroyed(entity).velocities[e]
                    == self.velocities[e],
    {
        lemma_without_members(self.alive, entity);
        lemma_without_members(self.position_order, entity);
        lemma_without_members(self.velocity_order, entity);
    }

    /// A system creates and destroys nothing, and changes only what it
    /// declares to write: the live entities, the registered kinds, the
    /// velocities and the entities that hold a position are the same before
    /// and after, and the world stays consistent.
    pub proof fn lemma_ran_keeps(self, system: System)
        ensures
            self.ran(system).next_id == self.next_id,
            self.ran(system).alive == self.alive,
            self.ran(system).registered == self.registered,
            self.ran(system).velocities == self.velocities,
            self.ran(system).velocity_order == self.velocity_order,
            self.ran(system).position_order == self.position_order,
            self.ran(system).positions.dom() == self.positions.dom(),
            !system.spec_writes().contains(ComponentKind::Position) ==> self.ran(system).positions
                == self.positions,
            self.consistent() ==> self.ran(system).consistent(),
    {
        if system == System::Logger {
            assert(!system.spec_writes().contains(ComponentKind::Position));
        } else {
            assert(system.spec_writes()[0] == ComponentKind::Position);
        }
        assert(self.ran(system).positions.dom() =~= self.positions.dom());
    }
}

/// The set of kinds that the two flags stand for.
pub open spec fn registered_kinds(position: bool, velocity: bool) -> Set<ComponentKind> {
    Set::new(
        |k: ComponentKind|
            match k {
                ComponentKind::Position => position,
                ComponentKind::Velocity => velocity,
            },
    )
}

/// The owner of all storages and of the set of live entities.
pub struct World {
    next_id: u64,
    alive: Vec<Entity>,
    positions: Storage<Position>,
    velocities: Storage<Velocity>,
    position_registered: bool,
    velocity_registered: bool,
}

impl World {
    /// What the world holds.
    pub closed spec fn view(&self) -> WorldModel {
        WorldModel {
            next_id: self.next_id as nat,
            alive: self.alive@,
            registered: registered_kinds(self.position_registered, self.velocity_registered),
            positions: self.positions@,
            position_order: self.positions.order(),
            velocities: self.velocities@,
            velocity_order: self.velocities.order(),
        }
    }

    /// The storages are well formed and the world is consistent.
    pub closed spec fn wf(&self) -> bool {
        &&& self.positions.wf()
        &&& self.velocities.wf()
        &&& self@.consistent()
    }

    /// A well-formed world is consistent.
    pub proof fn lemma_wf_consistent(&self)
        requires
            self.wf(),
        ensures
            self@.consistent(),
    {
    }

    /// A world without entities, with no kind of component registered.
    pub fn new() -> (world: World)
        ensures
            world.wf(),
            world@ == WorldModel::empty(),
    {
        let world = World {
            next_id: 0,
            alive: Vec::new(),
            positions: Storage::new(),
            velocities: Storage::new(),
            position_registered: false,
            velocity_registered: false,
        };
        proof {
            assert(world@.registered =~= Set::<ComponentKind>::empty());
            assert(world@ =~= WorldModel::empty());
        }
        world
    }

    /// Registers a kind of component. Registering a kind again changes
    /// nothing.
    pub fn register(&mut self, kind: ComponentKind)
        requires
            old(self).wf(),
        ensures
            final(self).wf(),
            final(self)@ == old(self)@.with_registered(kind),
    {
        match kind {
            ComponentKind::Position => {
                self.position_registered = true;
            },
            ComponentKind::Velocity => {
                self.velocity_registered = true;
            },
        }
        proof {
            assert(self@.registered =~= old(self)@.registered.insert(kind));
            assert(self@ =~= old(self)@.with_registered(kind));
        }
    }

    /// Whether the kind of component has been registered.
    pub fn is_registered(&self, kind: ComponentKind) -> (b: bool)
        ensures
            b == self@.registered.contains(kind),
    {
        match kind {
            ComponentKind::Position => self.position_registered,
            ComponentKind::Velocity => self.velocity_registered,
        }
    }

    /// All live entities, oldest first.
    pub fn entities(&self) -> (es: Vec<Entity>)
        ensures
            es@ == self@.alive,
    {
        self.alive.clone()
    }

    /// How many entities are alive.
    pub fn entity_count(&self) -> (n: usize)
        ensures
            n == self@.alive.len(),
    {
        self.alive.len()
    }

    /// Where among the live entities the entity stands, if it is alive.
    fn alive_index(&self, entity: Entity) -> (r: Option<usize>)
        ensures
            match r {
                Some(i) => i < self@.alive.len() && self@.alive[i as int] == entity,
                None => !self@.alive.contains(entity),
            },
    {
        let mut i: usize = 0;
        while i < self.alive.len()
            invariant
                i <= self.alive@.len(),
                forall|j: int| 0 <= j < i ==> self.alive@[j] != entity,
            decreases self.alive@.len() - i,
        {
            if self.alive[i] == entity {
                return Some(i);
            }
            i += 1;
        }
        None
    }

    /// Whether the entity is alive.
    pub fn is_alive(&self, entity: Entity) -> (b: bool)
        ensures
            b == self@.alive.contains(entity),
    {
        self.alive_index(entity).is_some()
    }

    /// Read access to the positions. Fails if positions are not registered.
    pub fn positions(&self) -> (r: Result<&Storage<Position>, ConfigurationError>)
        requires
            self.wf(),
        ensures
            match r {
                Ok(s) => self@.registered.contains(ComponentKind::Position) && s.wf() && s@
                    == self@.positions && s.order() == self@.position_order,
                Err(e) => !self@.registered.contains(ComponentKind::Position) && e.kind
                    == ComponentKind::Position,
            },
    {
        if self.position_registered {
            Ok(&self.positions)
        } else {
            Err(ConfigurationError { kind: ComponentKind::Position })
        }
    }

    /// Read access to the velocities. Fails if velocities are not
    /// registered.
    pub fn velocities(&self) -> (r: Result<&Storage<Velocity>, ConfigurationError>)
        requires
            self.wf(),
        ensures
            match r {
                Ok(s) => self@.registered.contains(ComponentKind::Velocity) && s.wf() && s@
                    == self@.velocities && s.order() == self@.velocity_order,
                Err(e) => !self@.registered.contains(ComponentKind::Velocity) && e.kind
                    == ComponentKind::Velocity,
            },
    {
        if self.velocity_registered {
            Ok(&self.velocities)
        } else {
            Err(ConfigurationError { kind: ComponentKind::Velocity })
        }
    }

    /// Write access to the positions. Fails if positions are not registered.
    /// What the storage holds when the caller is done with it is what the
    /// world holds from then on; the world is well formed again if the
    /// storage is and only live entities have an entry in it.
    pub fn positions_mut(&mut self) -> (r: Result<&mut Storage<Position>, ConfigurationError>)
        requires
            old(self).wf(),
        ensures
            r is Ok <==> old(self)@.registered.contains(ComponentKind::Position),
            r matches Ok(s) ==> s.wf() && s@ == old(self)@.positions && s.order() == old(
                self,
            )@.position_order,
            r matches Ok(s) ==> final(self)@ == (WorldModel {
                positions: final(s)@,
                position_order: final(s).order(),
                ..old(self)@
            }),
            r matches Ok(s) ==> (final(s).wf() && (forall|e: Entity| #[trigger]
                final(s)@.contains_key(e) ==> old(self)@.alive.contains(e))
                ==> final(self)@.consistent()),
            r matches Ok(s) ==> (final(s).wf() && (forall|e: Entity| #[trigger]
                final(s)@.contains_key(e) ==> old(self)@.alive.contains(e)) ==> final(self).wf()),
            r matches Err(e) ==> e.kind == ComponentKind::Position && final(self).wf() && final(self)@
                == old(self)@,
    {
        if self.position_registered {
            proof {
                assert forall|s: Storage<Position>| #[trigger] s.wf() implies s.order().no_duplicates()
                    && forall|e: Entity| s.order().contains(e) <==> #[trigger] s@.contains_key(e) by {
                    s.lemma_order_is_domain();
                }
            }
            Ok(&mut self.positions)
        } else {
            Err(ConfigurationError { kind: ComponentKind::Position })
        }
    }

    /// Write access to the velocities. Fails if velocities are not registered.
    /// What the storage holds when the caller is done with it is what the
    /// world holds from then on; the world is well formed again if the
    /// storage is and only live entities have an entry in it.
    pub fn velocities_mut(&mut self) -> (r: Result<&mut Storage<Velocity>, ConfigurationError>)
        requires
            old(self).wf(),
        ensures
            r is Ok <==> old(self)@.registered.contains(ComponentKind::Velocity),
            r matches Ok(s) ==> s.wf() && s@ == old(self)@.velocities && s.order() == old(
                self,
            )@.velocity_order,
            r matches Ok(s) ==> final(self)@ == (WorldModel {
                velocities: final(s)@,
                velocity_order: final(s).order(),
                ..old(self)@
            }),
            r matches Ok(s) ==> (final(s).wf() && (forall|e: Entity| #[trigger]
                final(s)@.contains_key(e) ==> old(self)@.alive.contains(e))
                ==> final(self)@.consistent()),
            r matches Ok(s) ==> (final(s).wf() && (forall|e: Entity| #[trigger]
                final(s)@.contains_key(e) ==> old(self)@.alive.contains(e)) ==> final(self).wf()),
            r matches Err(e) ==> e.kind == ComponentKind::Velocity && final(self).wf() && final(self)@
                == old(self)@,
    {
        if self.velocity_registered {
            proof {
                assert forall|s: Storage<Velocity>| #[trigger] s.wf() implies s.order().no_duplicates()
                    && forall|e: Entity| s.order().contains(e) <==> #[trigger] s@.contains_key(e) by {
                    s.lemma_order_is_domain();
                }
            }
            Ok(&mut self.velocities)
        } else {
            Err(ConfigurationError { kind: ComponentKind::Velocity })
        }
    }

    /// The position of the entity, if it has one.
    pub fn position_of(&self, entity: Entity) -> (r: Option<Position>)
        requires
            self.wf(),
        ensures
            r == if self@.positions.contains_key(entity) {
                Some(self@.positions[entity])
            } else {
                None
            },
    {
        match self.positions.get(entity) {
            Some(p) => Some(*p),
            None => None,
        }
    }

    /// The velocity of the entity, if it has one.
    pub fn velocity_of(&self, entity: Entity) -> (r: Option<Velocity>)
        requires
            self.wf(),
        ensures
            r == if self@.velocities.contains_key(entity) {
                Some(self@.velocities[entity])
            } else {
                None
            },
    {
        match self.velocities.get(entity) {
            Some(v) => Some(*v),
            None => None,
        }
    }

    /// Starts the description of a new entity. Nothing changes until the
    /// builder is built.
    pub fn create_entity(&self) -> (builder: EntityBuilder)
        ensures
            builder == (EntityBuilder { position: None, velocity: None }),
    {
        EntityBuilder { position: None, velocity: None }
    }

    /// Destroys the entity: it is no longer alive and its entry leaves every
    /// storage. Destroying an entity that is not alive changes nothing.
    pub fn destroy_entity(&mut self, entity: Entity)
        requires
            old(self).wf(),
        ensures
            final(self).wf(),
            final(self)@ == old(self)@.destroyed(entity),
    {
        proof {
            lemma_without_members(self.alive@, entity);
            lemma_without_members(self.positions.order(), entity);
            lemma_without_members(self.velocities.order(), entity);
        }
        match self.alive_index(entity) {
            Some(i) => {
                proof {
                    lemma_filter_out_at(self.alive@, i as int);
                }
                self.alive.remove(i);
            },
            None => {
                proof {
                    lemma_filter_out_absent(self.alive@, entity);
                }
            },
        }
        self.positions.remove(entity);
        self.velocities.remove(entity);
        proof {
            assert(self@ =~= old(self)@.destroyed(entity));
        }
    }

    /// Gives the entity the component, in place of the one of that kind it
    /// may have. Fails if the kind is not registered; does nothing and says
    /// `false` if the entity is not alive.
    pub fn insert(&mut self, entity: Entity, component: Component) -> (r: Result<
        bool,
        ConfigurationError,
    >)
        requires
            old(self).wf(),
        ensures
            final(self).wf(),
            !old(self)@.registered.contains(component.spec_kind()) ==> r == Err::<
                bool,
                ConfigurationError,
            >(ConfigurationError { kind: component.spec_kind() }) && final(self)@ == old(self)@,
            old(self)@.registered.contains(component.spec_kind()) && !old(self)@.alive.contains(
                entity,
            ) ==> r == Ok::<bool, ConfigurationError>(false) && final(self)@ == old(self)@,
            old(self)@.registered.contains(component.spec_kind()) && old(self)@.alive.contains(
                entity,
            ) ==> r == Ok::<bool, ConfigurationError>(true) && final(self)@ == old(
                self,
            )@.with_component(entity, component),
    {
        if !self.is_registered(component.kind()) {
            return Err(ConfigurationError { kind: component.kind() });
        }
        if !self.is_alive(entity) {
            return Ok(false);
        }
        proof {
            self.positions.lemma_order_is_domain();
            self.velocities.lemma_order_is_domain();
        }
        match component {
            Component::Position(p) => {
                self.positions.set(entity, p);
                proof {
                    self.positions.lemma_order_is_domain();
                }
            },
            Component::Velocity(v) => {
                self.velocities.set(entity, v);
                proof {
                    self.velocities.lemma_order_is_domain();
                }
            },
        }
        proof {
            assert(self@ =~= old(self)@.with_component(entity, component));
        }
        Ok(true)
    }

    /// Takes the component of the given kind from the entity and returns
    /// it, if the entity has one. Fails if the kind is not registered.
    pub fn remove(&mut self, entity: Entity, kind: ComponentKind) -> (r: Result<
        Option<Component>,
        ConfigurationError,
    >)
        requires
            old(self).wf(),
        ensures
            final(self).wf(),
            !old(self)@.registered.contains(kind) ==> r == Err::<
                Option<Component>,
                ConfigurationError,
            >(ConfigurationError { kind }) && final(self)@ == old(self)@,
            old(self)@.registered.contains(kind) ==> r == Ok::<
                Option<Component>,
                ConfigurationError,
            >(old(self)@.component(entity, kind)) && final(self)@ == old(self)@.without_component(
                entity,
                kind,
            ),
    {
        if !self.is_registered(kind) {
            return Err(ConfigurationError { kind });
        }
        proof {
            lemma_without_members(self.positions.order(), entity);
            lemma_without_members(self.velocities.order(), entity);
        }
        let taken = match kind {
            ComponentKind::Position => {
                match self.positions.remove(entity) {
                    Some(p) => Some(Component::Position(p)),
                    None => None,
                }
            },
            ComponentKind::Velocity => {
                match self.velocities.remove(entity) {
                    Some(v) => Some(Component::Velocity(v)),
                    None => None,
                }
            },
        };
        proof {
            assert(self@ =~= old(self)@.without_component(entity, kind));
        }
        Ok(taken)
    }

    /// Runs the system once: the logger appends its records to the sink,
    /// the integrator moves the positions.
    pub fn run(&mut self, system: &System, sink: &mut Vec<LogRecord>)
        requires
            old(self).wf(),
        ensures
            final(self).wf(),
            final(self)@ == old(self)@.ran(*system),
            final(sink)@ == old(sink)@ + old(self)@.reported(*system),
    {
        match system {
            System::Logger => {
                log_positions(&self.positions, sink);
            },
            System::Integrator { dt } => {
                integrate(&self.velocities, &mut self.positions, *dt);
                proof {
                    assert(self@ =~= old(self)@.ran(*system));
                    assert(sink@ =~= old(sink)@ + Seq::<LogRecord>::empty());
                }
            },
        }
    }
}

/// The description of an entity that is about to be made: the components
/// that it will hold.
#[derive(Clone, Copy, Debug, PartialEq, Eq, Structural)]
pub struct EntityBuilder {
    pub position: Option<Position>,
    pub velocity: Option<Velocity>,
}

impl EntityBuilder {
    /// The builder with the component added. A second component of one
    /// kind takes the place of the first.
    pub open spec fn spec_with(self, component: Component) -> EntityBuilder {
        match component {
            Component::Position(p) => EntityBuilder { position: Some(p), velocity: self.velocity },
            Component::Velocity(v) => EntityBuilder { position: self.position, velocity: Some(v) },
        }
    }

    /// Adds the component to the description.
    #[verifier::when_used_as_spec(spec_with)]
    pub fn with(self, component: Component) -> (builder: EntityBuilder)
        ensures
            builder == self.spec_with(component),
    {
        match component {
            Component::Position(p) => EntityBuilder { position: Some(p), velocity: self.velocity },
            Component::Velocity(v) => EntityBuilder { position: self.position, velocity: Some(v) },
        }
    }

    /// Makes the entity: it gets the next number, comes to life, and its
    /// components go into their storages. Fails, and changes nothing, if a
    /// component is of a kind that is not registered.
    pub fn build(self, world: &mut World) -> (r: Result<Entity, ConfigurationError>)
        requires
            old(world).wf(),
            old(world)@.next_id < u64::MAX,
        ensures
            final(world).wf(),
            match old(world)@.first_unregistered(self.position, self.velocity) {
                Some(kind) => r == Err::<Entity, ConfigurationError>(ConfigurationError { kind })
                    && final(world)@ == old(world)@,
                None => r == Ok::<Entity, ConfigurationError>(old(world)@.next_entity())
                    && final(world)@ == old(world)@.spawned(self.position, self.velocity),
            },
    {
        if self.position.is_some() && !world.position_registered {
            return Err(ConfigurationError { kind: ComponentKind::Position });
        }
        if self.velocity.is_some() && !world.velocity_registered {
            return Err(ConfigurationError { kind: ComponentKind::Velocity });
        }
        let entity = Entity { id: world.next_id };
        proof {
            world.positions.lemma_order_is_domain();
            world.velocities.lemma_order_is_domain();
            assert(!world.alive@.contains(entity)) by {
                if world.alive@.contains(entity) {
                    assert(entity.id < world@.next_id);
                }
            }
            lemma_push_fresh(world.alive@, entity);
        }
        world.next_id = world.next_id + 1;
        world.alive.push(entity);
        match self.position {
            Some(p) => {
                world.positions.set(entity, p);
            },
            None => {},
        }
        match self.velocity {
            Some(v) => {
                world.velocities.set(entity, v);
            },
            None => {},
        }
        proof {
            world.positions.lemma_order_is_domain();
            world.velocities.lemma_order_is_domain();
            assert(world@ =~= old(world)@.spawned(self.position, self.velocity));
            assert forall|e: Entity| #[trigger] world@.alive.contains(e) implies e.id
                < world@.next_id by {
                if e != entity {
                    assert(old(world)@.alive.contains(e));
                }
            }
        }
        Ok(entity)
    }
}

/// Appending an element that does not occur keeps a sequence free of
/// repeats, and adds just that element.
pub proof fn lemma_push_fresh(s: Seq<Entity>, entity: Entity)
    requires
        s.no_duplicates(),
        !s.contains(entity),
    ensures
        s.push(entity).no_duplicates(),
        forall|e: Entity| #[trigger] s.push(entity).contains(e) <==> s.contains(e) || e == entity,
{
    let t = s.push(entity);
    assert forall|i: int, j: int| 0 <= i < t.len() && 0 <= j < t.len() && i != j implies t[i]
        != t[j] by {
        if i < s.len() && j < s.len() {
            assert(s[i] != s[j]);
        } else if i < s.len() {
            assert(s.contains(s[i]));
        } else {
            assert(s.contains(s[j]));
        }
    }
    assert forall|e: Entity| #[trigger] t.contains(e) <==> s.contains(e) || e == entity by {
        if t.contains(e) {
            let j = t.index_of(e);
            assert(0 <= j < t.len() && t[j] == e);
            if j < s.len() {
                assert(s[j] == e);
            }
        }
        if s.contains(e) {
            let j = s.index_of(e);
            assert(0 <= j < s.len() && s[j] == e);
            assert(t[j] == e);
        }
        if e == entity {
            assert(t[s.len() as int] == e);
        }
    }
}

} // verus!
