use vstd::prelude::*;

verus! {

/// The number of compass headings a unit can face.
pub const HEADING_COUNT: u32 = 8;

/// A compass heading, clockwise from north.
#[derive(Clone, Copy, Debug, PartialEq, Eq, Structural, Hash)]
pub enum Heading {
    N,
    NE,
    E,
    SE,
    S,
    SW,
    W,
    NW,
}

impl Heading {
    /// Position of the heading in clockwise order, north being 0.
    pub open spec fn ord(self) -> int {
        match self {
            Heading::N => 0,
            Heading::NE => 1,
            Heading::E => 2,
            Heading::SE => 3,
            Heading::S => 4,
            Heading::SW => 5,
            Heading::W => 6,
            Heading::NW => 7,
        }
    }

    /// The heading at a clockwise position (taken modulo 8).
    pub open spec fn from_ord(i: int) -> Heading {
        let k = i % 8;
        if k == 0 {
            Heading::N
        } else if k == 1 {
            Heading::NE
        } else if k == 2 {
            Heading::E
        } else if k == 3 {
            Heading::SE
        } else if k == 4 {
            Heading::S
        } else if k == 5 {
            Heading::SW
        } else if k == 6 {
            Heading::W
        } else {
            Heading::NW
        }
    }

    /// The heading that points the other way.
    pub open spec fn opposite(self) -> Heading {
        Heading::from_ord(self.ord() + 4)
    }

    /// Position of the heading in clockwise order, north being 0.
    pub fn index(&self) -> (r: u32)
        ensures
            r == self.ord(),
            r < HEADING_COUNT,
    {
        match self {
            Heading::N => 0,
            Heading::NE => 1,
            Heading::E => 2,
            Heading::SE => 3,
            Heading::S => 4,
            Heading::SW => 5,
            Heading::W => 6,
            Heading::NW => 7,
        }
    }
}

impl Default for Heading {
    /// Units face north unless told otherwise.
    fn default() -> (r: Self)
        ensures
            r == Heading::N,
    {
        Heading::N
    }
}

/// A heading that is absent counts as north.
pub open spec fn heading_or_north(h: Option<Heading>) -> Heading {
    match h {
        Some(h) => h,
        None => Heading::N,
    }
}

/// The turn penalty between two headings: how many eighths of a turn lie
/// between them the short way round, 0 to 4.
pub open spec fn turn_penalty(a: Heading, b: Heading) -> int {
    let d = if a.ord() >= b.ord() { a.ord() - b.ord() } else { b.ord() - a.ord() };
    if d <= 8 - d { d } else { 8 - d }
}

/// The heading of a step whose offset is `(dx, dy)`. Steps of one cell
/// along each axis have their own heading; any other offset counts as SE.
pub open spec fn heading_for_offset(dx: int, dy: int) -> Heading {
    if dx == -1 && dy == 0 {
        Heading::E
    } else if dx == -1 && dy == 1 {
        Heading::NE
    } else if dx == 0 && dy == 1 {
        Heading::N
    } else if dx == 1 && dy == 1 {
        Heading::NW
    } else if dx == 1 && dy == 0 {
        Heading::W
    } else if dx == 1 && dy == -1 {
        Heading::SW
    } else if dx == 0 && dy == -1 {
        Heading::S
    } else {
        Heading::SE
    }
}

/// True of the eight offsets of a step to an adjacent cell.
pub open spec fn is_unit_offset(dx: int, dy: int) -> bool {
    -1 <= dx <= 1 && -1 <= dy <= 1 && !(dx == 0 && dy == 0)
}


/// Reversing a step to a neighbouring cell reverses its heading.
pub proof fn lemma_heading_reverse(dx: int, dy: int)
    requires
        is_unit_offset(dx, dy),
    ensures
        heading_for_offset(-dx, -dy) == heading_for_offset(dx, dy).opposite(),
{
}

/// The eight steps to neighbouring cells have eight different headings.
pub proof fn lemma_heading_distinct(dx1: int, dy1: int, dx2: int, dy2: int)
    requires
        is_unit_offset(dx1, dy1),
        is_unit_offset(dx2, dy2),
        heading_for_offset(dx1, dy1) == heading_for_offset(dx2, dy2),
    ensures
        dx1 == dx2,
        dy1 == dy2,
{
}

/// The turn penalty is the distance between two headings around the
/// compass: it is symmetric, lies between 0 and 4, is 0 exactly between
/// equal headings and 4 exactly between opposite ones.
pub proof fn lemma_turn_penalty(a: Heading, b: Heading)
    ensures
        turn_penalty(a, b) == turn_penalty(b, a),
        0 <= turn_penalty(a, b) <= 4,
        turn_penalty(a, b) == 0 <==> a == b,
        turn_penalty(a, b) == 4 <==> b == a.opposite(),
{
}

/// Turning one eighth further round changes the penalty by at most one.
pub proof fn lemma_turn_penalty_step(a: Heading, b: Heading)
    ensures
        turn_penalty(a, Heading::from_ord(b.ord() + 1)) <= turn_penalty(a, b) + 1,
        turn_penalty(a, b) <= turn_penalty(a, Heading::from_ord(b.ord() + 1)) + 1,
{
}

} // verus!
