use vstd::prelude::*;
use crate::heading::{Heading, HEADING_COUNT, heading_for_offset, heading_or_north, turn_penalty};

verus! {

/// A cell of the movement grid, by column `x` and row `y`.
#[derive(Clone, Copy, Debug, PartialEq, Eq, Structural, Hash)]
pub struct Cell {
    pub x: u32,
    pub y: u32,
}

/// A cell together with the heading a unit has when it stands there.
#[derive(Clone, Copy, Debug, PartialEq, Eq, Hash)]
pub struct NodeCoords {
    pub xy: Cell,
    pub h: Option<Heading>,
}

/// The signed difference of two coordinates, each first read as an `i32`
/// (a coordinate above `i32::MAX` wraps to a negative value).
pub open spec fn signed_diff(to: u32, from: u32) -> int {
    (to as i32) - (from as i32)
}

/// The heading of a unit that steps from `from` to `to`.
///
/// For the eight neighbouring cells this is the compass heading of the step;
/// any other pair of cells gives SE.
pub fn calculate_heading(from: &Cell, to: &Cell) -> (heading: Heading)
    requires
        i32::MIN <= signed_diff(to.x, from.x) <= i32::MAX,
        i32::MIN <= signed_diff(to.y, from.y) <= i32::MAX,
    ensures
        heading == heading_for_offset(signed_diff(to.x, from.x), signed_diff(to.y, from.y)),
{
    let to_x: i32 = to.x as i32;
    let to_y: i32 = to.y as i32;
    let from_x: i32 = from.x as i32;
    let from_y: i32 = from.y as i32;
    let dx: i32 = to_x - from_x;
    let dy: i32 = to_y - from_y;
    if dx == -1 && dy == 0 {
        Heading::E
    } else if dx == -1 && dy == 1 {
        Heading::NE
    } else if dx == 0 && dy == 1 {
        Heading::N
    } else if dx == 1 && dy == 1 {
        Heading::NW
    } else if dx == 1 && dy == 0 {
        Heading::W
    } else if dx == 1 && dy == -1 {
        Heading::SW
    } else if dx == 0 && dy == -1 {
        Heading::S
    } else {
        Heading::SE
    }
}

/// The turn penalty of moving from `start` to `end`: the number of eighths
/// of a turn between their headings, the short way round (0 to 4). A node
/// without a heading counts as facing north.
pub fn calculate_base_inertia(start: &NodeCoords, end: &NodeCoords) -> (penalty: u32)
    ensures
        penalty == turn_penalty(heading_or_north(start.h), heading_or_north(end.h)),
        penalty <= 4,
{
    let start_heading = match start.h {
        Some(h) => h,
        None => Heading::default(),
    };
    let end_heading = match end.h {
        Some(h) => h,
        None => Heading::N,
    };
    let a: i32 = start_heading.index() as i32;
    let b: i32 = end_heading.index() as i32;
    let difference: i32 = if a >= b { a - b } else { b - a };
    let count: i32 = HEADING_COUNT as i32;
    let half_headings: i32 = (count + 1) / 2;
    let off: i32 = if difference >= half_headings {
        difference - half_headings
    } else {
        half_headings - difference
    };
    (half_headings - off) as u32
}

} // verus!
