//! Facing directions on the grid and quarter-turn rotations.
//!
//! `Up` points toward smaller `y`, `Down` toward larger `y`, `Left` toward
//! smaller `x` and `Right` toward larger `x`.

use vstd::prelude::*;

verus! {

/// One of the four axis directions a chainsaw, a shield or a move can take.
#[derive(Clone, Copy, PartialEq, Eq, Structural, Debug)]
pub enum Direction {
    Up,
    Down,
    Right,
    Left,
}

/// A quarter turn, one way or the other.
#[derive(Clone, Copy, PartialEq, Eq, Structural, Debug)]
pub enum Rotation {
    Clockwise,
    Counterclockwise,
}

/// The direction reached from `direction` by one quarter turn in `rotation`.
pub open spec fn spec_rotate_direction(direction: Direction, rotation: Rotation) -> Direction {
    match rotation {
        Rotation::Clockwise => match direction {
            Direction::Up => Direction::Right,
            Direction::Right => Direction::Down,
            Direction::Down => Direction::Left,
            Direction::Left => Direction::Up,
        },
        Rotation::Counterclockwise => match direction {
            Direction::Up => Direction::Left,
            Direction::Left => Direction::Down,
            Direction::Down => Direction::Right,
            Direction::Right => Direction::Up,
        },
    }
}

/// Rotate the given direction by the given quarter turn.
pub fn rotate_direction(direction: &Direction, rotation: &Rotation) -> (r: Direction)
    ensures
        r == spec_rotate_direction(*direction, *rotation),
{
    match rotation {
        Rotation::Clockwise => match direction {
            Direction::Up => Direction::Right,
            Direction::Right => Direction::Down,
            Direction::Down => Direction::Left,
            Direction::Left => Direction::Up,
        },
        Rotation::Counterclockwise => match direction {
            Direction::Up => Direction::Left,
            Direction::Left => Direction::Down,
            Direction::Down => Direction::Right,
            Direction::Right => Direction::Up,
        },
    }
}

/// The single quarter turn that takes `from` to `to` when the two are 90
/// degrees apart.  This fixed table is the authoritative tie-break for
/// "shortest rotation": for opposite or equal pairs, where no single quarter
/// turn reaches `to`, it falls back to `Counterclockwise`.
pub open spec fn spec_shortest_rotation(from: Direction, to: Direction) -> Rotation {
    match (from, to) {
        (Direction::Down, Direction::Left) => Rotation::Clockwise,
        (Direction::Left, Direction::Up) => Rotation::Clockwise,
        (Direction::Up, Direction::Right) => Rotation::Clockwise,
        (Direction::Right, Direction::Down) => Rotation::Clockwise,
        _ => Rotation::Counterclockwise,
    }
}

/// The shortest way to rotate the `from` direction into the `to` direction,
/// by the fixed tie-break table above.
pub fn shortest_rotation(from: &Direction, to: &Direction) -> (r: Rotation)
    ensures
        r == spec_shortest_rotation(*from, *to),
{
    match (from, to) {
        (Direction::Down, Direction::Left)
        | (Direction::Left, Direction::Up)
        | (Direction::Up, Direction::Right)
        | (Direction::Right, Direction::Down) => Rotation::Clockwise,
        _ => Rotation::Counterclockwise,
    }
}

/// The direction pointing the opposite way.
pub open spec fn spec_opposite(direction: Direction) -> Direction {
    match direction {
        Direction::Up => Direction::Down,
        Direction::Down => Direction::Up,
        Direction::Left => Direction::Right,
        Direction::Right => Direction::Left,
    }
}

/// The direction pointing the opposite way.
pub fn opposite_direction(direction: &Direction) -> (r: Direction)
    ensures
        r == spec_opposite(*direction),
{
    match direction {
        Direction::Up => Direction::Down,
        Direction::Down => Direction::Up,
        Direction::Left => Direction::Right,
        Direction::Right => Direction::Left,
    }
}

/// A clockwise quarter turn followed by a counterclockwise one (or the other
/// way around) is the identity on directions.
pub proof fn lemma_rotate_inverse(direction: Direction)
    ensures
        spec_rotate_direction(
            spec_rotate_direction(direction, Rotation::Clockwise),
            Rotation::Counterclockwise,
        ) == direction,
        spec_rotate_direction(
            spec_rotate_direction(direction, Rotation::Counterclockwise),
            Rotation::Clockwise,
        ) == direction,
{
}

/// Four clockwise quarter turns return every direction to itself.
pub proof fn lemma_rotate_four_times(direction: Direction)
    ensures
        spec_rotate_direction(
            spec_rotate_direction(
                spec_rotate_direction(
                    spec_rotate_direction(direction, Rotation::Clockwise),
                    Rotation::Clockwise,
                ),
                Rotation::Clockwise,
            ),
            Rotation::Clockwise,
        ) == direction,
{
}

} // verus!
