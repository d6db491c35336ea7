//! The render adapter: what to draw for one frame.
//!
//! The adapter decides; a backend performs the commands in order.

use crate::component::Position;
use crate::entity::Entity;
use crate::systems::{joined, lemma_joined_members};
use crate::world::{World, WorldModel};
use vstd::prelude::*;

verus! {

/// The radius of every circle: 100 units.
pub const CIRCLE_RADIUS: i64 = 100_000;

/// The stroke parameter of every circle: 2 units.
pub const CIRCLE_STROKE: i64 = 2_000;

/// One request to the rendering backend. Lengths are in thousandths.
#[derive(Clone, Copy, Debug, PartialEq, Eq, Structural)]
pub enum DrawCommand {
    /// Clear the frame buffer.
    Clear,
    /// Draw a filled circle around `(x, y)`.
    FilledCircle { x: i64, y: i64, radius: i64, stroke: i64 },
    /// Present the frame.
    Present,
}

/// The circle that marks a position.
pub open spec fn circle_at(position: Position) -> DrawCommand {
    DrawCommand::FilledCircle {
        x: position.x,
        y: position.y,
        radius: CIRCLE_RADIUS,
        stroke: CIRCLE_STROKE,
    }
}

/// One circle for each live entity that has a position, oldest entity
/// first.
pub open spec fn circles(alive: Seq<Entity>, positions: Map<Entity, Position>) -> Seq<DrawCommand> {
    joined(alive, positions.dom()).map_values(|e: Entity| circle_at(positions[e]))
}

/// The commands of one frame: clear, the circles, present.
pub open spec fn frame_of(world: WorldModel) -> Seq<DrawCommand> {
    seq![DrawCommand::Clear] + circles(world.alive, world.positions) + seq![DrawCommand::Present]
}

/// A frame holds exactly one circle for each entity that has a position,
/// between one clear and one present.
pub proof fn lemma_one_circle_per_position(world: WorldModel)
    requires
        world.consistent(),
    ensures
        world.positions.dom().finite(),
        circles(world.alive, world.positions).len() == world.positions.dom().len(),
        frame_of(world).len() == world.positions.dom().len() + 2,
        frame_of(world)[0] == DrawCommand::Clear,
        frame_of(world).last() == DrawCommand::Present,
        forall|i: int|
            0 < i < frame_of(world).len() - 1 ==> exists|e: Entity|
                world.positions.contains_key(e) && #[trigger] frame_of(world)[i] == circle_at(
                    world.positions[e],
                ),
{
    let both = joined(world.alive, world.positions.dom());
    lemma_joined_members(world.alive, world.positions.dom());
    assert(both.to_set() =~= world.positions.dom());
    vstd::seq_lib::seq_to_set_is_finite(both);
    both.unique_seq_to_set();
    let frame = frame_of(world);
    assert forall|i: int| 0 < i < frame.len() - 1 implies exists|e: Entity|
        world.positions.contains_key(e) && #[trigger] frame[i] == circle_at(
            world.positions[e],
        ) by {
        let e = both[i - 1];
        assert(both.contains(e));
        assert(frame[i] == circle_at(world.positions[e]));
    }
}

/// The draw commands of one frame of the world.
pub fn draw(world: &World) -> (commands: Vec<DrawCommand>)
    requires
        world.wf(),
    ensures
        commands@ == frame_of(world@),
{
    let alive = world.entities();
    let mut commands: Vec<DrawCommand> = Vec::new();
    commands.push(DrawCommand::Clear);
    let mut i: usize = 0;
    proof {
        reveal(Seq::filter);
        assert(alive@.take(0) =~= Seq::<Entity>::empty());
        assert(commands@ =~= seq![DrawCommand::Clear] + circles(
            alive@.take(0),
            world@.positions,
        ));
    }
    while i < alive.len()
        invariant
            world.wf(),
            alive@ == world@.alive,
            i <= alive@.len(),
            commands@ == seq![DrawCommand::Clear] + circles(
                alive@.take(i as int),
                world@.positions,
            ),
        decreases alive@.len() - i,
    {
        let entity = alive[i];
        proof {
            reveal(Seq::filter);
            assert(alive@.take(i + 1).drop_last() =~= alive@.take(i as int));
            assert(alive@.take(i + 1).last() == entity);
        }
        match world.position_of(entity) {
            Some(p) => {
                commands.push(
                    DrawCommand::FilledCircle {
                        x: p.x,
                        y: p.y,
                        radius: CIRCLE_RADIUS,
                        stroke: CIRCLE_STROKE,
                    },
                );
                proof {
                    assert(commands@ =~= seq![DrawCommand::Clear] + circles(
                        alive@.take(i + 1),
                        world@.positions,
                    ));
                }
            },
            None => {},
        }
        i += 1;
    }
    proof {
        assert(alive@.take(i as int) =~= alive@);
    }
    commands.push(DrawCommand::Present);
    commands
}

} // verus!
