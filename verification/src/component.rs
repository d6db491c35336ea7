//! Component records and fixed-point motion.
//!
//! A coordinate is an `i64` that counts thousandths of a unit, so `4.0` is
//! `4_000` and `0.005` is `5`. A velocity counts thousandths of a unit per
//! unit of time, and a time step counts thousandths of a unit of time.

use vstd::prelude::*;

verus! {

/// How many steps of a fixed-point number make one unit.
pub const SCALE: i64 = 1000;

/// The default time step: 0.05 units of time.
pub const DEFAULT_DT: i64 = 50;

/// The kinds of component that a world can hold.
#[derive(Clone, Copy, Debug, PartialEq, Eq, Structural)]
pub enum ComponentKind {
    Position,
    Velocity,
}

/// Where an entity is.
#[derive(Clone, Copy, Debug, PartialEq, Eq, Structural)]
pub struct Position {
    pub x: i64,
    pub y: i64,
}

/// How far an entity moves in one unit of time.
#[derive(Clone, Copy, Debug, PartialEq, Eq, Structural)]
pub struct Velocity {
    pub x: i64,
    pub y: i64,
}

/// A component value together with its kind.
#[derive(Clone, Copy, Debug, PartialEq, Eq, Structural)]
pub enum Component {
    Position(Position),
    Velocity(Velocity),
}

/// The quotient of `a` by a positive `b`, rounded toward zero.
pub open spec fn quotient_toward_zero(a: int, b: int) -> int {
    if a >= 0 {
        a / b
    } else {
        -((-a) / b)
    }
}

/// The nearest value that an `i64` can hold.
pub open spec fn saturated(v: int) -> int {
    if v < i64::MIN {
        i64::MIN as int
    } else if v > i64::MAX {
        i64::MAX as int
    } else {
        v
    }
}

/// The way made at `velocity` during `dt`: their product, brought back to
/// thousandths and rounded toward zero.
pub open spec fn displacement(velocity: int, dt: int) -> int {
    quotient_toward_zero(velocity * dt, SCALE as int)
}

/// A coordinate after one step: the coordinate plus the displacement, held
/// at the ends of the `i64` range.
pub open spec fn advanced(coordinate: int, velocity: int, dt: int) -> int {
    saturated(coordinate + displacement(velocity, dt))
}

/// Where no end of the range is reached, a step adds the displacement.
pub proof fn lemma_advanced_in_range(coordinate: int, velocity: int, dt: int)
    requires
        i64::MIN <= coordinate + displacement(velocity, dt) <= i64::MAX,
    ensures
        advanced(coordinate, velocity, dt) == coordinate + displacement(velocity, dt),
{
}

/// At the default time step a velocity that is a multiple of twenty
/// thousandths moves a coordinate by exactly a twentieth of itself.
pub proof fn lemma_default_displacement(k: int)
    ensures
        displacement(20 * k, DEFAULT_DT as int) == k,
{
    if k >= 0 {
        assert((20 * k) * 50 == 1000 * k);
        assert((1000 * k) / 1000 == k) by (nonlinear_arith);
    } else {
        assert(-((20 * k) * 50) == 1000 * (-k));
        assert((1000 * (-k)) / 1000 == -k) by (nonlinear_arith);
    }
}

/// A body at rest stays where it is, and so does any body in no time.
pub proof fn lemma_advanced_still(coordinate: i64, velocity: int, dt: int)
    requires
        velocity == 0 || dt == 0,
    ensures
        advanced(coordinate as int, velocity, dt) == coordinate,
{
    assert(velocity * dt == 0) by (nonlinear_arith)
        requires
            velocity == 0 || dt == 0,
    ;
}

/// One coordinate after one step of length `dt`.
pub fn advance(coordinate: i64, velocity: i64, dt: i64) -> (r: i64)
    ensures
        r == advanced(coordinate as int, velocity as int, dt as int),
{
    assert(-0x4000_0000_0000_0000_0000_0000_0000_0000 <= velocity * dt
        <= 0x4000_0000_0000_0000_0000_0000_0000_0000) by (nonlinear_arith)
        requires
            -0x8000_0000_0000_0000 <= velocity <= 0x7fff_ffff_ffff_ffff,
            -0x8000_0000_0000_0000 <= dt <= 0x7fff_ffff_ffff_ffff,
    ;
    let product: i128 = (velocity as i128) * (dt as i128);
    let delta: i128 = product / 1000;
    assert(delta == displacement(velocity as int, dt as int));
    let sum: i128 = (coordinate as i128) + delta;
    if sum < i64::MIN as i128 {
        i64::MIN
    } else if sum > i64::MAX as i128 {
        i64::MAX
    } else {
        sum as i64
    }
}

impl Position {
    /// The position with the given coordinates, in thousandths.
    pub fn new(x: i64, y: i64) -> (p: Position)
        ensures
            p == (Position { x, y }),
    {
        Position { x, y }
    }

    /// The position after moving at `velocity` for `dt`.
    pub open spec fn moved(self, velocity: Velocity, dt: i64) -> Position {
        Position {
            x: advanced(self.x as int, velocity.x as int, dt as int) as i64,
            y: advanced(self.y as int, velocity.y as int, dt as int) as i64,
        }
    }

    /// Moves the position at `velocity` for `dt`.
    pub fn step(&self, velocity: &Velocity, dt: i64) -> (p: Position)
        ensures
            p == self.moved(*velocity, dt),
    {
        Position { x: advance(self.x, velocity.x, dt), y: advance(self.y, velocity.y, dt) }
    }
}

impl Velocity {
    /// The velocity with the given coordinates, in thousandths per unit of
    /// time.
    pub fn new(x: i64, y: i64) -> (v: Velocity)
        ensures
            v == (Velocity { x, y }),
    {
        Velocity { x, y }
    }
}

impl Component {
    /// The kind of the value.
    pub open spec fn spec_kind(&self) -> ComponentKind {
        match *self {
            Component::Position(_) => ComponentKind::Position,
            Component::Velocity(_) => ComponentKind::Velocity,
        }
    }

    /// The kind of the value.
    #[verifier::when_used_as_spec(spec_kind)]
    pub fn kind(&self) -> (k: ComponentKind)
        ensures
            k == self.spec_kind(),
    {
        match self {
            Component::Position(_) => ComponentKind::Position,
            Component::Velocity(_) => ComponentKind::Velocity,
        }
    }
}

} // verus!
