//! The blocks around a block, under four schemes of adjacency.
//!
//! A query is made for a block with a positive column and a positive row.
//! What it returns is not held against any grid: a coordinate may lie beyond
//! the last block, and the caller tests it before use. The step up from the
//! largest `u32` wraps to zero.

use crate::error::PixelError;
use vstd::prelude::*;

verus! {

/// The side of a block towards which a directional query looks.
#[derive(Clone, Copy, Debug, PartialEq, Eq, Structural)]
pub enum Direction {
    Up,
    Down,
    Left,
    Right,
}

/// One step down an axis, for a positive coordinate.
pub open spec fn before(v: u32) -> u32
    recommends
        v > 0,
{
    (v - 1) as u32
}

/// One step up an axis; the largest coordinate steps to zero.
pub open spec fn after(v: u32) -> u32 {
    if v == u32::MAX {
        0
    } else {
        (v + 1) as u32
    }
}

/// Whether neighbours can be asked of `(x, y)`: neither coordinate is zero.
pub open spec fn eligible(x: u32, y: u32) -> bool {
    x > 0 && y > 0
}

/// The four blocks that share an edge with `(x, y)`: left, right, above,
/// below.
pub open spec fn adjacent_of(x: u32, y: u32) -> Seq<(u32, u32)> {
    seq![(before(x), y), (after(x), y), (x, after(y)), (x, before(y))]
}

/// The four blocks that share only a corner with `(x, y)`.
pub open spec fn diagonal_of(x: u32, y: u32) -> Seq<(u32, u32)> {
    seq![
        (before(x), after(y)),
        (before(x), before(y)),
        (after(x), after(y)),
        (after(x), before(y)),
    ]
}

/// The eight blocks around `(x, y)`: those that share an edge, then those
/// that share a corner.
pub open spec fn all_of(x: u32, y: u32) -> Seq<(u32, u32)> {
    adjacent_of(x, y) + diagonal_of(x, y)
}

/// The three blocks on one side of `(x, y)`.
pub open spec fn direction_of(x: u32, y: u32, direction: Direction) -> Seq<(u32, u32)> {
    match direction {
        Direction::Up => seq![(before(x), after(y)), (x, after(y)), (after(x), after(y))],
        Direction::Down => seq![(before(x), before(y)), (x, before(y)), (after(x), before(y))],
        Direction::Right => seq![(after(x), after(y)), (after(x), y), (after(x), before(y))],
        Direction::Left => seq![(before(x), after(y)), (before(x), y), (before(x), before(y))],
    }
}

fn step_up(v: u32) -> (next: u32)
    ensures
        next == after(v),
{
    if v == u32::MAX {
        0
    } else {
        v + 1
    }
}

/// All eight neighbours of `(x, y)`, or `InvalidCoordinate` where `x` or `y`
/// is zero.
pub fn neighbours_all(x: u32, y: u32) -> (result: Result<[(u32, u32); 8], PixelError>)
    ensures
        eligible(x, y) ==> result.is_ok() && result.unwrap()@ == all_of(x, y),
        !eligible(x, y) ==> result == Err::<[(u32, u32); 8], PixelError>(
            PixelError::InvalidCoordinate,
        ),
{
    if x == 0 || y == 0 {
        return Err(PixelError::InvalidCoordinate);
    }
    let left: u32 = x - 1;
    let right: u32 = step_up(x);
    let below: u32 = y - 1;
    let above: u32 = step_up(y);
    let found: [(u32, u32); 8] = [
        (left, y),
        (right, y),
        (x, above),
        (x, below),
        (left, above),
        (left, below),
        (right, above),
        (right, below),
    ];
    assert(found@ =~= all_of(x, y));
    Ok(found)
}

/// The four neighbours that share an edge with `(x, y)`, or
/// `InvalidCoordinate` where `x` or `y` is zero.
pub fn neighbours_adjacent(x: u32, y: u32) -> (result: Result<[(u32, u32); 4], PixelError>)
    ensures
        eligible(x, y) ==> result.is_ok() && result.unwrap()@ == adjacent_of(x, y),
        !eligible(x, y) ==> result == Err::<[(u32, u32); 4], PixelError>(
            PixelError::InvalidCoordinate,
        ),
{
    if x == 0 || y == 0 {
        return Err(PixelError::InvalidCoordinate);
    }
    let found: [(u32, u32); 4] = [(x - 1, y), (step_up(x), y), (x, step_up(y)), (x, y - 1)];
    assert(found@ =~= adjacent_of(x, y));
    Ok(found)
}

/// The four neighbours that share only a corner with `(x, y)`, or
/// `InvalidCoordinate` where `x` or `y` is zero.
pub fn neighbours_diagonal(x: u32, y: u32) -> (result: Result<[(u32, u32); 4], PixelError>)
    ensures
        eligible(x, y) ==> result.is_ok() && result.unwrap()@ == diagonal_of(x, y),
        !eligible(x, y) ==> result == Err::<[(u32, u32); 4], PixelError>(
            PixelError::InvalidCoordinate,
        ),
{
    if x == 0 || y == 0 {
        return Err(PixelError::InvalidCoordinate);
    }
    let left: u32 = x - 1;
    let right: u32 = step_up(x);
    let below: u32 = y - 1;
    let above: u32 = step_up(y);
    let found: [(u32, u32); 4] = [(left, above), (left, below), (right, above), (right, below)];
    assert(found@ =~= diagonal_of(x, y));
    Ok(found)
}

/// The three neighbours on one side of `(x, y)`, or `InvalidCoordinate`
/// where `x` or `y` is zero.
pub fn neighbours_direction(x: u32, y: u32, direction: Direction) -> (result: Result<
    [(u32, u32); 3],
    PixelError,
>)
    ensures
        eligible(x, y) ==> result.is_ok() && result.unwrap()@ == direction_of(x, y, direction),
        !eligible(x, y) ==> result == Err::<[(u32, u32); 3], PixelError>(
            PixelError::InvalidCoordinate,
        ),
{
    if x == 0 || y == 0 {
        return Err(PixelError::InvalidCoordinate);
    }
    let left: u32 = x - 1;
    let right: u32 = step_up(x);
    let below: u32 = y - 1;
    let above: u32 = step_up(y);
    let found: [(u32, u32); 3] = match direction {
        Direction::Up => [(left, above), (x, above), (right, above)],
        Direction::Down => [(left, below), (x, below), (right, below)],
        Direction::Right => [(right, above), (right, y), (right, below)],
        Direction::Left => [(left, above), (left, y), (left, below)],
    };
    assert(found@ =~= direction_of(x, y, direction));
    Ok(found)
}

} // verus!
